//! The program as the analyses read it: modules of functions, functions of
//! basic blocks, blocks of instructions closed by one terminator.
//!
//! Blocks are named by their position in their function, types by an
//! integer that stands for one type of the program.
use vstd::prelude::*;

verus! {

/// The type of a function: what it returns, what it takes, and whether it
/// takes further arguments.
pub struct Signature {
    pub ret: u64,
    pub params: Vec<u64>,
    pub variadic: bool,
}

impl View for Signature {
    type V = (u64, Seq<u64>, bool);

    open spec fn view(&self) -> (u64, Seq<u64>, bool) {
        (self.ret, self.params@, self.variadic)
    }
}

impl Signature {
    /// Whether two signatures are the same type.
    pub fn same_as(&self, other: &Signature) -> (r: bool)
        ensures
            r == (self@ == other@),
    {
        if self.ret != other.ret || self.variadic != other.variadic || self.params.len()
            != other.params.len() {
            return false;
        }
        let mut i: usize = 0;
        while i < self.params.len()
            invariant
                i <= self.params.len(),
                self.params.len() == other.params.len(),
                forall|k: int| 0 <= k < i ==> self.params@[k] == other.params@[k],
            decreases self.params.len() - i,
        {
            if self.params[i] != other.params[i] {
                return false;
            }
            i += 1;
        }
        assert(self.params@ =~= other.params@);
        true
    }

    /// A copy of the signature.
    pub fn duplicate(&self) -> (r: Signature)
        ensures
            r@ == self@,
    {
        let mut params: Vec<u64> = Vec::new();
        let mut i: usize = 0;
        while i < self.params.len()
            invariant
                i <= self.params.len(),
                params@ == self.params@.take(i as int),
            decreases self.params.len() - i,
        {
            params.push(self.params[i]);
            assert(self.params@.take(i as int).push(self.params@[i as int])
                =~= self.params@.take(i + 1));
            i += 1;
        }
        assert(self.params@.take(i as int) =~= self.params@);
        Signature { ret: self.ret, params, variadic: self.variadic }
    }
}

/// What an instruction means to the call graph.
pub enum Instruction {
    /// A call of the function of this name.
    DirectCall(String),
    /// A call through a value of this function type.
    IndirectCall(Signature),
    /// Anything that calls nothing.
    Other,
}

/// The instruction that ends a block, with the blocks that it may go to.
pub enum Terminator {
    Br(usize),
    CondBr(usize, usize),
    Switch(Vec<usize>, usize),
    IndirectBr(Vec<usize>),
    Ret,
    Unreachable,
}

impl Terminator {
    /// Whether control may pass from this terminator to node `b` of a
    /// function whose exit node is `exit`.
    pub open spec fn goes_to(&self, exit: usize, b: usize) -> bool {
        match *self {
            Terminator::Br(t) => b == t,
            Terminator::CondBr(t, f) => b == t || b == f,
            Terminator::Switch(ts, d) => ts@.contains(b) || b == d,
            Terminator::IndirectBr(ts) => ts@.contains(b),
            Terminator::Ret => b == exit,
            Terminator::Unreachable => b == exit,
        }
    }

    /// The nodes that the terminator names, in its own order, with `exit`
    /// for a return.
    pub open spec fn targets(&self, exit: usize) -> Seq<usize> {
        match *self {
            Terminator::Br(t) => seq![t],
            Terminator::CondBr(t, f) => seq![t, f],
            Terminator::Switch(ts, d) => ts@.push(d),
            Terminator::IndirectBr(ts) => ts@,
            Terminator::Ret => seq![exit],
            Terminator::Unreachable => seq![exit],
        }
    }

    /// Whether every block that the terminator names is one of the first
    /// `n` blocks.
    pub open spec fn targets_below(&self, n: usize) -> bool {
        match *self {
            Terminator::Br(t) => t < n,
            Terminator::CondBr(t, f) => t < n && f < n,
            Terminator::Switch(ts, d) => d < n && forall|k: int|
                0 <= k < ts@.len() ==> ts@[k] < n,
            Terminator::IndirectBr(ts) => forall|k: int| 0 <= k < ts@.len() ==> ts@[k] < n,
            Terminator::Ret => true,
            Terminator::Unreachable => true,
        }
    }

    /// The exec form of `targets_below`.
    pub fn check_targets(&self, n: usize) -> (r: bool)
        ensures
            r == self.targets_below(n),
    {
        match self {
            Terminator::Br(t) => *t < n,
            Terminator::CondBr(t, f) => *t < n && *f < n,
            Terminator::Switch(ts, d) => *d < n && all_below(ts, n),
            Terminator::IndirectBr(ts) => all_below(ts, n),
            Terminator::Ret => true,
            Terminator::Unreachable => true,
        }
    }
}

/// Whether every element of `v` is less than `n`.
pub fn all_below(v: &Vec<usize>, n: usize) -> (r: bool)
    ensures
        r == (forall|k: int| 0 <= k < v@.len() ==> v@[k] < n),
{
    let mut i: usize = 0;
    while i < v.len()
        invariant
            i <= v.len(),
            forall|k: int| 0 <= k < i ==> v@[k] < n,
        decreases v.len() - i,
    {
        if v[i] >= n {
            return false;
        }
        i += 1;
    }
    true
}

/// A function of the program: the position of its module, and its own in
/// that module.
#[derive(Clone, Copy, Debug, PartialEq, Eq, Structural)]
pub struct FuncRef {
    pub module: usize,
    pub function: usize,
}

/// `a` comes before `b` in the order of the program.
pub open spec fn comes_before(a: FuncRef, b: FuncRef) -> bool {
    a.module < b.module || (a.module == b.module && a.function < b.function)
}

/// `r` names a function of `mods`.
pub open spec fn is_function(mods: Seq<Module>, r: FuncRef) -> bool {
    r.module < mods.len() && r.function < mods[r.module as int].functions@.len()
}

/// The function that `r` names.
pub open spec fn function_at(mods: Seq<Module>, r: FuncRef) -> Function {
    mods[r.module as int].functions@[r.function as int]
}

/// What holds of a sequence after one more element is added.
pub proof fn lemma_push_has<T>(s: Seq<T>, x: T)
    ensures
        forall|y: T| #[trigger] s.push(x).contains(y) <==> (s.contains(y) || y == x),
{
    let t = s.push(x);
    assert forall|y: T| t.contains(y) <==> (s.contains(y) || y == x) by {
        if t.contains(y) {
            let j = choose|j: int| 0 <= j < t.len() && t[j] == y;
            if j < s.len() {
                assert(s[j] == y);
            }
        }
        if s.contains(y) {
            let j = choose|j: int| 0 <= j < s.len() && s[j] == y;
            assert(t[j] == y);
        }
        if y == x {
            assert(t[s.len() as int] == y);
        }
    }
}

/// A block: its instructions, and the terminator that ends it.
pub struct BasicBlock {
    pub instrs: Vec<Instruction>,
    pub term: Terminator,
}

/// A function. One without blocks is a declaration: it has a name and a
/// type, and its body lies elsewhere.
pub struct Function {
    pub name: String,
    pub signature: Signature,
    pub blocks: Vec<BasicBlock>,
}

impl Function {
    /// The function has at least one block.
    pub open spec fn has_body(&self) -> bool {
        self.blocks@.len() > 0
    }

    /// A function with a body whose terminators name blocks of the
    /// function only.
    pub open spec fn well_formed(&self) -> bool {
        &&& 0 < self.blocks@.len() < usize::MAX
        &&& forall|i: int|
            0 <= i < self.blocks@.len() ==> (#[trigger] self.blocks@[i]).term.targets_below(
                self.blocks@.len() as usize,
            )
    }

    /// The exec form of `well_formed`.
    pub fn is_well_formed(&self) -> (r: bool)
        ensures
            r == self.well_formed(),
    {
        let n: usize = self.blocks.len();
        if n == 0 || n == usize::MAX {
            return false;
        }
        let mut i: usize = 0;
        while i < n
            invariant
                i <= n,
                n == self.blocks@.len(),
                forall|k: int| 0 <= k < i ==> (#[trigger] self.blocks@[k]).term.targets_below(n),
            decreases n - i,
        {
            if !self.blocks[i].term.check_targets(n) {
                return false;
            }
            i += 1;
        }
        true
    }
}

/// A module: a name and its functions, in their order.
pub struct Module {
    pub name: String,
    pub functions: Vec<Function>,
}

impl Module {
    /// Whether function `i` is the first of the module that has a body and
    /// the name `name`.
    pub open spec fn first_defined(&self, name: Seq<char>, i: int) -> bool {
        &&& 0 <= i < self.functions@.len()
        &&& self.functions@[i].name@ == name
        &&& self.functions@[i].has_body()
        &&& forall|k: int|
            0 <= k < i ==> !((#[trigger] self.functions@[k]).name@ == name
                && self.functions@[k].has_body())
    }

    /// Whether the module has a function with a body and the name `name`.
    pub open spec fn defines(&self, name: Seq<char>) -> bool {
        exists|i: int|
            0 <= i < self.functions@.len() && (#[trigger] self.functions@[i]).name@ == name
                && self.functions@[i].has_body()
    }

    /// The position of the module's first function with a body and the
    /// given name.
    pub fn get_func_by_name(&self, name: &str) -> (r: Option<usize>)
        ensures
            match r {
                Some(i) => self.first_defined(name@, i as int),
                None => !self.defines(name@),
            },
    {
        let wanted: String = name.to_owned();
        let mut i: usize = 0;
        while i < self.functions.len()
            invariant
                i <= self.functions.len(),
                wanted@ == name@,
                forall|k: int|
                    0 <= k < i ==> !((#[trigger] self.functions@[k]).name@ == name@
                        && self.functions@[k].has_body()),
            decreases self.functions.len() - i,
        {
            if self.functions[i].blocks.len() > 0 && self.functions[i].name == wanted {
                return Some(i);
            }
            i += 1;
        }
        None
    }
}

} // verus!
