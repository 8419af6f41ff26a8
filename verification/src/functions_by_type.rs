//! The functions of the program by their type: for a signature, every
//! function of any module that has exactly that signature.
use vstd::prelude::*;
use crate::ir::{comes_before, function_at, is_function, lemma_push_has, FuncRef, Module, Signature};

verus! {

/// `r` names a function of `mods` whose signature is `sig`.
pub open spec fn has_type(mods: Seq<Module>, sig: (u64, Seq<u64>, bool), r: FuncRef) -> bool {
    is_function(mods, r) && function_at(mods, r).signature@ == sig
}

/// `list` holds the functions of `mods` with the signature `sig`: each of
/// them once, in the order of the program, and nothing else.
pub open spec fn is_bucket(mods: Seq<Module>, sig: (u64, Seq<u64>, bool), list: Seq<FuncRef>) -> bool {
    &&& forall|r: FuncRef| list.contains(r) <==> has_type(mods, sig, r)
    &&& forall|j: int, k: int| 0 <= j < k < list.len() ==> comes_before(list[j], list[k])
}

/// The signature of every function of the program, definitions and
/// declarations alike, to be asked by type.
pub struct FunctionsByType {
    pub mods: Ghost<Seq<Module>>,
    pub sigs: Vec<Vec<Signature>>,
}

impl FunctionsByType {
    /// The index holds the signature of each function of its modules.
    pub open spec fn well_formed(&self) -> bool {
        &&& self.sigs@.len() == self.mods@.len()
        &&& forall|m: int|
            0 <= m < self.sigs@.len() ==> (#[trigger] self.sigs@[m])@.len()
                == self.mods@[m].functions@.len()
        &&& forall|m: int, f: int|
            0 <= m < self.sigs@.len() && 0 <= f < self.sigs@[m]@.len() ==> (#[trigger] self.sigs@[m]@[f])@
                == self.mods@[m].functions@[f].signature@
    }

    /// Reads the signature of every function of every module, once.
    pub fn new(modules: &Vec<Module>) -> (idx: FunctionsByType)
        ensures
            idx.well_formed(),
            idx.mods@ == modules@,
    {
        let mut sigs: Vec<Vec<Signature>> = Vec::new();
        let mut m: usize = 0;
        while m < modules.len()
            invariant
                m <= modules@.len(),
                sigs@.len() == m,
                forall|a: int|
                    0 <= a < m ==> (#[trigger] sigs@[a])@.len() == modules@[a].functions@.len(),
                forall|a: int, f: int|
                    0 <= a < m && 0 <= f < sigs@[a]@.len() ==> (#[trigger] sigs@[a]@[f])@
                        == modules@[a].functions@[f].signature@,
            decreases modules@.len() - m,
        {
            let mut row: Vec<Signature> = Vec::new();
            let mut f: usize = 0;
            while f < modules[m].functions.len()
                invariant
                    m < modules@.len(),
                    f <= modules@[m as int].functions@.len(),
                    row@.len() == f,
                    forall|k: int|
                        0 <= k < f ==> (#[trigger] row@[k])@
                            == modules@[m as int].functions@[k].signature@,
                decreases modules@[m as int].functions@.len() - f,
            {
                row.push(modules[m].functions[f].signature.duplicate());
                f += 1;
            }
            sigs.push(row);
            m += 1;
        }
        FunctionsByType { mods: Ghost(modules@), sigs }
    }

    /// The functions whose signature is `sig`, in the order of the program;
    /// none where no function has it.
    pub fn functions_with_type(&self, sig: &Signature) -> (list: Vec<FuncRef>)
        requires
            self.well_formed(),
        ensures
            is_bucket(self.mods@, sig@, list@),
    {
        let mut list: Vec<FuncRef> = Vec::new();
        let mut m: usize = 0;
        while m < self.sigs.len()
            invariant
                self.well_formed(),
                m <= self.sigs@.len(),
                forall|k: int|
                    0 <= k < list@.len() ==> (#[trigger] list@[k]).module < m && has_type(
                        self.mods@,
                        sig@,
                        list@[k],
                    ),
                forall|r: FuncRef|
                    r.module < m && has_type(self.mods@, sig@, r) ==> list@.contains(r),
                forall|j: int, k: int| 0 <= j < k < list@.len() ==> comes_before(list@[j], list@[k]),
            decreases self.sigs@.len() - m,
        {
            let mut f: usize = 0;
            while f < self.sigs[m].len()
                invariant
                    self.well_formed(),
                    m < self.sigs@.len(),
                    f <= self.sigs@[m as int]@.len(),
                    forall|k: int|
                        0 <= k < list@.len() ==> ((#[trigger] list@[k]).module < m || (list@[k].module
                            == m && list@[k].function < f)) && has_type(self.mods@, sig@, list@[k]),
                    forall|r: FuncRef|
                        (r.module < m || (r.module == m && r.function < f)) && has_type(
                            self.mods@,
                            sig@,
                            r,
                        ) ==> list@.contains(r),
                    forall|j: int, k: int|
                        0 <= j < k < list@.len() ==> comes_before(list@[j], list@[k]),
                decreases self.sigs@[m as int]@.len() - f,
            {
                let here = FuncRef { module: m, function: f };
                let same: bool = self.sigs[m][f].same_as(sig);
                assert(self.sigs@[m as int]@[f as int]@ == function_at(self.mods@, here).signature@);
                assert(same == has_type(self.mods@, sig@, here));
                let ghost before = list@;
                if same {
                    list.push(here);
                }
                proof {
                    lemma_push_has(before, here);
                    assert forall|r: FuncRef|
                        (r.module < m || (r.module == m && r.function < f + 1)) && has_type(
                            self.mods@,
                            sig@,
                            r,
                        ) implies list@.contains(r) by {
                        if r.module == m && r.function == f {
                            assert(r == here);
                            assert(same);
                            assert(list@ == before.push(here));
                            assert(before.push(here).contains(r));
                        } else {
                            assert(before.contains(r));
                            if same {
                                assert(list@ == before.push(here));
                                assert(before.push(here).contains(r));
                            } else {
                                assert(list@ == before);
                            }
                        }
                    }
                }
                f += 1;
            }
            m += 1;
        }
        proof {
            assert forall|r: FuncRef| list@.contains(r) implies has_type(self.mods@, sig@, r) by {
                let k = choose|k: int| 0 <= k < list@.len() && list@[k] == r;
                assert(has_type(self.mods@, sig@, list@[k]));
            }
        }
        list
    }
}

} // verus!
