//! The errors that a query can end in.
use vstd::prelude::*;

verus! {

/// Why a query could not be answered.
#[derive(Debug)]
pub enum Error {
    /// A direct call names a function that no module holds.
    CallGraph(String),
    /// The requested name has a body in more than one module.
    AmbiguousName(String),
    /// The requested name has a body in no module.
    UnknownName(String),
}

impl Error {
    /// The text that the error carries: the unresolved or offending name.
    pub fn message(&self) -> (s: &String)
        ensures
            *s == (match *self {
                Error::CallGraph(m) => m,
                Error::AmbiguousName(m) => m,
                Error::UnknownName(m) => m,
            }),
    {
        match self {
            Error::CallGraph(m) => m,
            Error::AmbiguousName(m) => m,
            Error::UnknownName(m) => m,
        }
    }
}

} // verus!
