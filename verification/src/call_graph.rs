//! The call graph of the whole program: for each call instruction, the
//! functions that it may call.
use vstd::prelude::*;
use crate::error::Error;
use crate::functions_by_type::{is_bucket, FunctionsByType};
use crate::ir::{
    comes_before, function_at, is_function, lemma_push_has, BasicBlock, FuncRef, Function,
    Instruction, Module,
};

verus! {

/// `r` names a function of `mods` that is called `name`.
pub open spec fn named(mods: Seq<Module>, name: Seq<char>, r: FuncRef) -> bool {
    is_function(mods, r) && function_at(mods, r).name@ == name
}

/// `r` is the first function of `mods` that is called `name`.
pub open spec fn resolves_to(mods: Seq<Module>, name: Seq<char>, r: FuncRef) -> bool {
    &&& named(mods, name, r)
    &&& forall|o: FuncRef| #[trigger] named(mods, name, o) ==> o == r || comes_before(r, o)
}

/// No function of `mods` is called `name`.
pub open spec fn unresolved(mods: Seq<Module>, name: Seq<char>) -> bool {
    forall|o: FuncRef| !named(mods, name, o)
}

/// `list` holds what `instr` may call: for a direct call the one function
/// of that name, for an indirect call every function of the call's type,
/// each once, and nothing for another instruction.
pub open spec fn callees_of(mods: Seq<Module>, instr: Instruction, list: Seq<FuncRef>) -> bool {
    match instr {
        Instruction::DirectCall(name) => list.len() == 1 && resolves_to(mods, name@, list[0]),
        Instruction::IndirectCall(sig) => is_bucket(mods, sig@, list),
        Instruction::Other => list.len() == 0,
    }
}

/// `instr` is a direct call of `name`, and no function has that name.
pub open spec fn dangling(mods: Seq<Module>, instr: Instruction, name: Seq<char>) -> bool {
    match instr {
        Instruction::DirectCall(n) => n@ == name && unresolved(mods, name),
        _ => false,
    }
}

/// Some instruction of `block` is a direct call of `name`, and no function
/// has that name.
pub open spec fn block_dangling(mods: Seq<Module>, block: BasicBlock, name: Seq<char>) -> bool {
    exists|i: int| 0 <= i < block.instrs@.len() && dangling(mods, #[trigger] block.instrs@[i], name)
}

/// Some block of `func` holds a direct call of `name`, and no function has
/// that name.
pub open spec fn function_dangling(mods: Seq<Module>, func: Function, name: Seq<char>) -> bool {
    exists|b: int|
        0 <= b < func.blocks@.len() && block_dangling(mods, #[trigger] func.blocks@[b], name)
}

/// Some function of `module` holds a direct call of `name`, and no
/// function has that name.
pub open spec fn module_dangling(mods: Seq<Module>, module: Module, name: Seq<char>) -> bool {
    exists|f: int|
        0 <= f < module.functions@.len() && function_dangling(
            mods,
            #[trigger] module.functions@[f],
            name,
        )
}

/// Some direct call in `part` names `name`, and no function of `mods` has
/// that name.
pub open spec fn program_dangling(mods: Seq<Module>, part: Seq<Module>, name: Seq<char>) -> bool {
    exists|m: int| 0 <= m < part.len() && module_dangling(mods, #[trigger] part[m], name)
}

/// `instr` is a direct call of a name that no function has.
pub open spec fn dangles(mods: Seq<Module>, instr: Instruction) -> bool {
    match instr {
        Instruction::DirectCall(n) => unresolved(mods, n@),
        _ => false,
    }
}

/// None of the first `i` instructions of `block` calls a name that no
/// function has.
pub open spec fn block_clean(mods: Seq<Module>, block: BasicBlock, i: int) -> bool {
    forall|k: int|
        0 <= k < i && k < block.instrs@.len() ==> !dangles(mods, #[trigger] block.instrs@[k])
}

/// No instruction of the first `b` blocks of `func` calls a name that no
/// function has.
pub open spec fn function_clean(mods: Seq<Module>, func: Function, b: int) -> bool {
    forall|k: int|
        0 <= k < b && k < func.blocks@.len() ==> block_clean(
            mods,
            #[trigger] func.blocks@[k],
            func.blocks@[k].instrs@.len() as int,
        )
}

/// No instruction of the first `f` functions of `module` calls a name that
/// no function has.
pub open spec fn module_clean(mods: Seq<Module>, module: Module, f: int) -> bool {
    forall|k: int|
        0 <= k < f && k < module.functions@.len() ==> function_clean(
            mods,
            #[trigger] module.functions@[k],
            module.functions@[k].blocks@.len() as int,
        )
}

/// No instruction of the first `m` modules calls a name that no function
/// has.
pub open spec fn program_clean(mods: Seq<Module>, m: int) -> bool {
    forall|k: int|
        0 <= k < m && k < mods.len() ==> module_clean(
            mods,
            #[trigger] mods[k],
            mods[k].functions@.len() as int,
        )
}

/// The first instruction of `block` that calls a name that no function has
/// calls `name`.
pub open spec fn block_first_dangling(mods: Seq<Module>, block: BasicBlock, name: Seq<char>) -> bool {
    exists|i: int|
        0 <= i < block.instrs@.len() && dangling(mods, #[trigger] block.instrs@[i], name)
            && block_clean(mods, block, i)
}

/// The first instruction of `func` that calls a name that no function has
/// calls `name`.
pub open spec fn function_first_dangling(
    mods: Seq<Module>,
    func: Function,
    name: Seq<char>,
) -> bool {
    exists|b: int|
        0 <= b < func.blocks@.len() && block_first_dangling(mods, #[trigger] func.blocks@[b], name)
            && function_clean(mods, func, b)
}

/// The first instruction of `module` that calls a name that no function
/// has calls `name`.
pub open spec fn module_first_dangling(mods: Seq<Module>, module: Module, name: Seq<char>) -> bool {
    exists|f: int|
        0 <= f < module.functions@.len() && function_first_dangling(
            mods,
            #[trigger] module.functions@[f],
            name,
        ) && module_clean(mods, module, f)
}

/// The first instruction of the program that calls a name that no function
/// has calls `name`.
pub open spec fn program_first_dangling(mods: Seq<Module>, name: Seq<char>) -> bool {
    exists|m: int|
        0 <= m < mods.len() && module_first_dangling(mods, #[trigger] mods[m], name)
            && program_clean(mods, m)
}

/// An instruction that has its callees calls no name that no function has.
pub proof fn lemma_site_clean(mods: Seq<Module>, instr: Instruction, list: Seq<FuncRef>)
    requires
        callees_of(mods, instr, list),
    ensures
        !dangles(mods, instr),
{
    match instr {
        Instruction::DirectCall(n) => {
            assert(named(mods, n@, list[0]));
        },
        _ => {},
    }
}

/// A block whose instructions have their callees is clean.
pub proof fn lemma_block_clean(mods: Seq<Module>, block: BasicBlock, rows: Seq<Vec<FuncRef>>, i: int)
    requires
        rows.len() >= i,
        forall|k: int|
            0 <= k < i && k < block.instrs@.len() ==> callees_of(
                mods,
                block.instrs@[k],
                (#[trigger] rows[k])@,
            ),
    ensures
        block_clean(mods, block, i),
{
    assert forall|k: int| 0 <= k < i && k < block.instrs@.len() implies !dangles(
        mods,
        #[trigger] block.instrs@[k],
    ) by {
        lemma_site_clean(mods, block.instrs@[k], rows[k]@);
    }
}

/// A function whose blocks have their callees is clean.
pub proof fn lemma_function_clean(
    mods: Seq<Module>,
    func: Function,
    rows: Seq<Vec<Vec<FuncRef>>>,
    b: int,
)
    requires
        rows.len() >= b,
        forall|k: int|
            0 <= k < b && k < func.blocks@.len() ==> block_ok(
                mods,
                func.blocks@[k],
                (#[trigger] rows[k])@,
            ),
    ensures
        function_clean(mods, func, b),
{
    assert forall|k: int| 0 <= k < b && k < func.blocks@.len() implies block_clean(
        mods,
        #[trigger] func.blocks@[k],
        func.blocks@[k].instrs@.len() as int,
    ) by {
        assert(block_ok(mods, func.blocks@[k], rows[k]@));
        lemma_block_clean(mods, func.blocks@[k], rows[k]@, func.blocks@[k].instrs@.len() as int);
    }
}

/// A module whose functions have their callees is clean.
pub proof fn lemma_module_clean(
    mods: Seq<Module>,
    module: Module,
    rows: Seq<Vec<Vec<Vec<FuncRef>>>>,
    f: int,
)
    requires
        rows.len() >= f,
        forall|k: int|
            0 <= k < f && k < module.functions@.len() ==> function_ok(
                mods,
                module.functions@[k],
                (#[trigger] rows[k])@,
            ),
    ensures
        module_clean(mods, module, f),
{
    assert forall|k: int| 0 <= k < f && k < module.functions@.len() implies function_clean(
        mods,
        #[trigger] module.functions@[k],
        module.functions@[k].blocks@.len() as int,
    ) by {
        assert(function_ok(mods, module.functions@[k], rows[k]@));
        lemma_function_clean(
            mods,
            module.functions@[k],
            rows[k]@,
            module.functions@[k].blocks@.len() as int,
        );
    }
}

/// A program whose modules have their callees is clean.
pub proof fn lemma_program_clean(
    mods: Seq<Module>,
    rows: Seq<Vec<Vec<Vec<Vec<FuncRef>>>>>,
    m: int,
)
    requires
        rows.len() >= m,
        forall|k: int|
            0 <= k < m && k < mods.len() ==> module_ok(mods, mods[k], (#[trigger] rows[k])@),
    ensures
        program_clean(mods, m),
{
    assert forall|k: int| 0 <= k < m && k < mods.len() implies module_clean(
        mods,
        #[trigger] mods[k],
        mods[k].functions@.len() as int,
    ) by {
        assert(module_ok(mods, mods[k], rows[k]@));
        lemma_module_clean(mods, mods[k], rows[k]@, mods[k].functions@.len() as int);
    }
}

/// `rows` holds, for each instruction of `block`, what it may call.
pub open spec fn block_ok(mods: Seq<Module>, block: BasicBlock, rows: Seq<Vec<FuncRef>>) -> bool {
    &&& rows.len() == block.instrs@.len()
    &&& forall|i: int|
        0 <= i < rows.len() ==> callees_of(mods, block.instrs@[i], (#[trigger] rows[i])@)
}

/// `rows` holds, for each instruction of each block of `func`, what it may
/// call.
pub open spec fn function_ok(
    mods: Seq<Module>,
    func: Function,
    rows: Seq<Vec<Vec<FuncRef>>>,
) -> bool {
    &&& rows.len() == func.blocks@.len()
    &&& forall|b: int| 0 <= b < rows.len() ==> block_ok(mods, func.blocks@[b], (#[trigger] rows[b])@)
}

/// `rows` holds, for each instruction of each function of `module`, what it
/// may call.
pub open spec fn module_ok(
    mods: Seq<Module>,
    module: Module,
    rows: Seq<Vec<Vec<Vec<FuncRef>>>>,
) -> bool {
    &&& rows.len() == module.functions@.len()
    &&& forall|f: int|
        0 <= f < rows.len() ==> function_ok(mods, module.functions@[f], (#[trigger] rows[f])@)
}

/// `rows` holds, for every instruction of every function of `mods`, what
/// it may call.
pub open spec fn program_ok(mods: Seq<Module>, rows: Seq<Vec<Vec<Vec<Vec<FuncRef>>>>>) -> bool {
    &&& rows.len() == mods.len()
    &&& forall|m: int| 0 <= m < rows.len() ==> module_ok(mods, mods[m], (#[trigger] rows[m])@)
}

/// The first function of the program with the given name, a definition or
/// a declaration.
pub fn resolve(modules: &Vec<Module>, name: &str) -> (r: Option<FuncRef>)
    ensures
        match r {
            Some(x) => resolves_to(modules@, name@, x),
            None => unresolved(modules@, name@),
        },
{
    let wanted: String = name.to_owned();
    let mut m: usize = 0;
    while m < modules.len()
        invariant
            m <= modules@.len(),
            wanted@ == name@,
            forall|o: FuncRef| o.module < m ==> !named(modules@, name@, o),
        decreases modules@.len() - m,
    {
        let mut f: usize = 0;
        while f < modules[m].functions.len()
            invariant
                m < modules@.len(),
                f <= modules@[m as int].functions@.len(),
                wanted@ == name@,
                forall|o: FuncRef|
                    (o.module < m || (o.module == m && o.function < f)) ==> !named(
                        modules@,
                        name@,
                        o,
                    ),
            decreases modules@[m as int].functions@.len() - f,
        {
            if modules[m].functions[f].name == wanted {
                let here = FuncRef { module: m, function: f };
                assert(named(modules@, name@, here));
                return Some(here);
            }
            f += 1;
        }
        m += 1;
    }
    None
}

/// What one instruction may call. A direct call of a name that no function
/// has is an error, which carries the name; an indirect call whose type no
/// function has calls nothing.
pub fn site_callees(modules: &Vec<Module>, index: &FunctionsByType, instr: &Instruction) -> (r:
    Result<Vec<FuncRef>, Error>)
    requires
        index.well_formed(),
        index.mods@ == modules@,
    ensures
        match r {
            Ok(list) => callees_of(modules@, *instr, list@),
            Err(e) => e matches Error::CallGraph(n) && dangling(modules@, *instr, n@),
        },
{
    match instr {
        Instruction::DirectCall(name) => {
            match resolve(modules, name.as_str()) {
                Some(target) => {
                    let mut list: Vec<FuncRef> = Vec::new();
                    list.push(target);
                    Ok(list)
                },
                None => Err(Error::CallGraph(name.clone())),
            }
        },
        Instruction::IndirectCall(sig) => Ok(index.functions_with_type(sig)),
        Instruction::Other => Ok(Vec::new()),
    }
}

fn block_calls(modules: &Vec<Module>, index: &FunctionsByType, block: &BasicBlock) -> (r: Result<
    Vec<Vec<FuncRef>>,
    Error,
>)
    requires
        index.well_formed(),
        index.mods@ == modules@,
    ensures
        match r {
            Ok(rows) => block_ok(modules@, *block, rows@),
            Err(e) => e matches Error::CallGraph(n) && block_dangling(modules@, *block, n@)
                && block_first_dangling(modules@, *block, n@),
        },
{
    let mut rows: Vec<Vec<FuncRef>> = Vec::new();
    let mut i: usize = 0;
    while i < block.instrs.len()
        invariant
            index.well_formed(),
            index.mods@ == modules@,
            i <= block.instrs@.len(),
            rows@.len() == i,
            forall|k: int|
                0 <= k < i ==> callees_of(modules@, block.instrs@[k], (#[trigger] rows@[k])@),
        decreases block.instrs@.len() - i,
    {
        match site_callees(modules, index, &block.instrs[i]) {
            Ok(list) => {
                rows.push(list);
            },
            Err(e) => {
                proof {
                    lemma_block_clean(modules@, *block, rows@, i as int);
                }
                return Err(e);
            },
        }
        i += 1;
    }
    Ok(rows)
}

fn function_calls(modules: &Vec<Module>, index: &FunctionsByType, func: &Function) -> (r: Result<
    Vec<Vec<Vec<FuncRef>>>,
    Error,
>)
    requires
        index.well_formed(),
        index.mods@ == modules@,
    ensures
        match r {
            Ok(rows) => function_ok(modules@, *func, rows@),
            Err(e) => e matches Error::CallGraph(n) && function_dangling(modules@, *func, n@)
                && function_first_dangling(modules@, *func, n@),
        },
{
    let mut rows: Vec<Vec<Vec<FuncRef>>> = Vec::new();
    let mut b: usize = 0;
    while b < func.blocks.len()
        invariant
            index.well_formed(),
            index.mods@ == modules@,
            b <= func.blocks@.len(),
            rows@.len() == b,
            forall|k: int|
                0 <= k < b ==> block_ok(modules@, func.blocks@[k], (#[trigger] rows@[k])@),
        decreases func.blocks@.len() - b,
    {
        match block_calls(modules, index, &func.blocks[b]) {
            Ok(list) => {
                rows.push(list);
            },
            Err(e) => {
                proof {
                    lemma_function_clean(modules@, *func, rows@, b as int);
                }
                return Err(e);
            },
        }
        b += 1;
    }
    Ok(rows)
}

fn module_calls(modules: &Vec<Module>, index: &FunctionsByType, module: &Module) -> (r: Result<
    Vec<Vec<Vec<Vec<FuncRef>>>>,
    Error,
>)
    requires
        index.well_formed(),
        index.mods@ == modules@,
    ensures
        match r {
            Ok(rows) => module_ok(modules@, *module, rows@),
            Err(e) => e matches Error::CallGraph(n) && module_dangling(modules@, *module, n@)
                && module_first_dangling(modules@, *module, n@),
        },
{
    let mut rows: Vec<Vec<Vec<Vec<FuncRef>>>> = Vec::new();
    let mut f: usize = 0;
    while f < module.functions.len()
        invariant
            index.well_formed(),
            index.mods@ == modules@,
            f <= module.functions@.len(),
            rows@.len() == f,
            forall|k: int|
                0 <= k < f ==> function_ok(modules@, module.functions@[k], (#[trigger] rows@[k])@),
        decreases module.functions@.len() - f,
    {
        match function_calls(modules, index, &module.functions[f]) {
            Ok(list) => {
                rows.push(list);
            },
            Err(e) => {
                proof {
                    lemma_module_clean(modules@, *module, rows@, f as int);
                }
                return Err(e);
            },
        }
        f += 1;
    }
    Ok(rows)
}

/// Where every call has its callees, no direct call names a function that
/// is not there.
pub proof fn law_complete_graph_has_no_dangling_call(
    mods: Seq<Module>,
    rows: Seq<Vec<Vec<Vec<Vec<FuncRef>>>>>,
    name: Seq<char>,
)
    requires
        program_ok(mods, rows),
    ensures
        !program_dangling(mods, mods, name),
{
    if program_dangling(mods, mods, name) {
        let m = choose|m: int| 0 <= m < mods.len() && module_dangling(mods, #[trigger] mods[m], name);
        let module = mods[m];
        assert(module_ok(mods, module, rows[m]@));
        let f = choose|f: int|
            0 <= f < module.functions@.len() && function_dangling(
                mods,
                #[trigger] module.functions@[f],
                name,
            );
        let func = module.functions@[f];
        assert(function_ok(mods, func, rows[m]@[f]@));
        let b = choose|b: int|
            0 <= b < func.blocks@.len() && block_dangling(mods, #[trigger] func.blocks@[b], name);
        let block = func.blocks@[b];
        assert(block_ok(mods, block, rows[m]@[f]@[b]@));
        let i = choose|i: int|
            0 <= i < block.instrs@.len() && dangling(mods, #[trigger] block.instrs@[i], name);
        let list = rows[m]@[f]@[b]@[i]@;
        assert(callees_of(mods, block.instrs@[i], list));
        assert(named(mods, name, list[0]));
    }
}

/// A list of the functions of one type names none of them twice.
pub proof fn law_bucket_has_no_duplicates(
    mods: Seq<Module>,
    sig: (u64, Seq<u64>, bool),
    list: Seq<FuncRef>,
)
    requires
        is_bucket(mods, sig, list),
    ensures
        list.no_duplicates(),
{
    assert forall|j: int, k: int| 0 <= j < list.len() && 0 <= k < list.len() && j != k implies list[j]
        != list[k] by {
        if j < k {
            assert(comes_before(list[j], list[k]));
        } else {
            assert(comes_before(list[k], list[j]));
        }
    }
}

/// The edge `x` comes before the edge `y`: by the caller, then by the
/// callee.
pub open spec fn edge_before(x: (FuncRef, FuncRef), y: (FuncRef, FuncRef)) -> bool {
    comes_before(x.0, y.0) || (x.0 == y.0 && comes_before(x.1, y.1))
}

/// `a` comes before function `f` of module `m`.
pub open spec fn caller_before(a: FuncRef, m: usize, f: usize) -> bool {
    a.module < m || (a.module == m && a.function < f)
}

/// The call graph of a program.
pub struct CallGraph {
    pub mods: Ghost<Seq<Module>>,
    pub calls: Vec<Vec<Vec<Vec<Vec<FuncRef>>>>>,
}

impl CallGraph {
    /// The graph holds the callees of every instruction of its program.
    pub open spec fn well_formed(&self) -> bool {
        program_ok(self.mods@, self.calls@)
    }

    /// The instruction `i` of block `b` of `caller` may call `callee`.
    pub open spec fn site_calls(&self, caller: FuncRef, b: int, i: int, callee: FuncRef) -> bool {
        let blocks = self.calls@[caller.module as int]@[caller.function as int]@;
        0 <= b < blocks.len() && 0 <= i < blocks[b]@.len() && blocks[b]@[i]@.contains(callee)
    }

    /// Some instruction of `caller` may call `callee`.
    pub open spec fn spec_calls(&self, caller: FuncRef, callee: FuncRef) -> bool {
        &&& is_function(self.mods@, caller)
        &&& exists|b: int, i: int| self.site_calls(caller, b, i, callee)
    }

    /// `i` is an instruction of block `b` of function `f` of module `m`.
    pub open spec fn is_site(&self, m: int, f: int, b: int, i: int) -> bool {
        &&& 0 <= m < self.mods@.len()
        &&& 0 <= f < self.mods@[m].functions@.len()
        &&& 0 <= b < self.mods@[m].functions@[f].blocks@.len()
        &&& 0 <= i < self.mods@[m].functions@[f].blocks@[b].instrs@.len()
    }

    /// In the graph every instruction has what it may call, and nothing
    /// else: a direct call its one function, an indirect call each function
    /// of its type once, any other instruction nothing.
    pub proof fn law_site_has_its_callees(&self, m: int, f: int, b: int, i: int)
        requires
            self.well_formed(),
            self.is_site(m, f, b, i),
        ensures
            callees_of(
                self.mods@,
                self.mods@[m].functions@[f].blocks@[b].instrs@[i],
                self.calls@[m]@[f]@[b]@[i]@,
            ),
    {
        assert(module_ok(self.mods@, self.mods@[m], self.calls@[m]@));
        assert(function_ok(self.mods@, self.mods@[m].functions@[f], self.calls@[m]@[f]@));
        assert(block_ok(
            self.mods@,
            self.mods@[m].functions@[f].blocks@[b],
            self.calls@[m]@[f]@[b]@,
        ));
    }

    /// Builds the call graph of `modules`. It fails where a direct call
    /// names a function that no module holds, with the first such name.
    pub fn new(modules: &Vec<Module>, index: &FunctionsByType) -> (r: Result<CallGraph, Error>)
        requires
            index.well_formed(),
            index.mods@ == modules@,
        ensures
            match r {
                Ok(g) => g.well_formed() && g.mods@ == modules@,
                Err(e) => e matches Error::CallGraph(n) && program_dangling(
                    modules@,
                    modules@,
                    n@,
                ) && program_first_dangling(modules@, n@),
            },
            r is Err <==> exists|name: Seq<char>| program_dangling(modules@, modules@, name),
    {
        let mut rows: Vec<Vec<Vec<Vec<Vec<FuncRef>>>>> = Vec::new();
        let mut m: usize = 0;
        while m < modules.len()
            invariant
                index.well_formed(),
                index.mods@ == modules@,
                m <= modules@.len(),
                rows@.len() == m,
                forall|k: int|
                    0 <= k < m ==> module_ok(modules@, modules@[k], (#[trigger] rows@[k])@),
            decreases modules@.len() - m,
        {
            match module_calls(modules, index, &modules[m]) {
                Ok(list) => {
                    rows.push(list);
                },
                Err(e) => {
                    proof {
                        lemma_program_clean(modules@, rows@, m as int);
                    }
                    return Err(e);
                },
            }
            m += 1;
        }
        proof {
            assert forall|name: Seq<char>| !program_dangling(modules@, modules@, name) by {
                law_complete_graph_has_no_dangling_call(modules@, rows@, name);
            }
        }
        Ok(CallGraph { mods: Ghost(modules@), calls: rows })
    }

    /// Whether some instruction of `caller` may call `callee`.
    pub fn calls(&self, caller: FuncRef, callee: FuncRef) -> (r: bool)
        requires
            self.well_formed(),
        ensures
            r == self.spec_calls(caller, callee),
    {
        if caller.module >= self.calls.len() {
            return false;
        }
        assert(module_ok(self.mods@, self.mods@[caller.module as int], self.calls@[caller.module as int]@));
        if caller.function >= self.calls[caller.module].len() {
            return false;
        }
        let blocks: &Vec<Vec<Vec<FuncRef>>> = &self.calls[caller.module][caller.function];
        let mut b: usize = 0;
        while b < blocks.len()
            invariant
                b <= blocks@.len(),
                blocks@ == self.calls@[caller.module as int]@[caller.function as int]@,
                is_function(self.mods@, caller),
                forall|x: int, i: int| 0 <= x < b ==> !self.site_calls(caller, x, i, callee),
            decreases blocks@.len() - b,
        {
            let mut i: usize = 0;
            while i < blocks[b].len()
                invariant
                    b < blocks@.len(),
                    i <= blocks@[b as int]@.len(),
                    blocks@ == self.calls@[caller.module as int]@[caller.function as int]@,
                    is_function(self.mods@, caller),
                    forall|x: int, k: int| 0 <= x < b ==> !self.site_calls(caller, x, k, callee),
                    forall|k: int| 0 <= k < i ==> !self.site_calls(caller, b as int, k, callee),
                decreases blocks@[b as int]@.len() - i,
            {
                if holds(&blocks[b][i], callee) {
                    assert(self.site_calls(caller, b as int, i as int, callee));
                    return true;
                }
                i += 1;
            }
            b += 1;
        }
        false
    }

    /// `other` stands to `fixed` as asked for: `fixed` calls it where
    /// `forward` holds, and it calls `fixed` where not.
    pub open spec fn related(&self, fixed: FuncRef, other: FuncRef, forward: bool) -> bool {
        is_function(self.mods@, other) && if forward {
            self.spec_calls(fixed, other)
        } else {
            self.spec_calls(other, fixed)
        }
    }

    fn collect(&self, fixed: FuncRef, forward: bool) -> (list: Vec<FuncRef>)
        requires
            self.well_formed(),
        ensures
            forall|o: FuncRef| list@.contains(o) <==> self.related(fixed, o, forward),
            forall|j: int, k: int| 0 <= j < k < list@.len() ==> comes_before(list@[j], list@[k]),
    {
        let mut list: Vec<FuncRef> = Vec::new();
        let mut m: usize = 0;
        while m < self.calls.len()
            invariant
                self.well_formed(),
                m <= self.calls@.len(),
                forall|k: int|
                    0 <= k < list@.len() ==> (#[trigger] list@[k]).module < m && self.related(
                        fixed,
                        list@[k],
                        forward,
                    ),
                forall|o: FuncRef|
                    o.module < m && self.related(fixed, o, forward) ==> list@.contains(o),
                forall|j: int, k: int| 0 <= j < k < list@.len() ==> comes_before(list@[j], list@[k]),
            decreases self.calls@.len() - m,
        {
            assert(module_ok(self.mods@, self.mods@[m as int], self.calls@[m as int]@));
            let mut f: usize = 0;
            while f < self.calls[m].len()
                invariant
                    self.well_formed(),
                    m < self.calls@.len(),
                    f <= self.calls@[m as int]@.len(),
                    self.calls@[m as int]@.len() == self.mods@[m as int].functions@.len(),
                    forall|k: int|
                        0 <= k < list@.len() ==> ((#[trigger] list@[k]).module < m || (list@[k].module
                            == m && list@[k].function < f)) && self.related(fixed, list@[k], forward),
                    forall|o: FuncRef|
                        (o.module < m || (o.module == m && o.function < f)) && self.related(
                            fixed,
                            o,
                            forward,
                        ) ==> list@.contains(o),
                    forall|j: int, k: int|
                        0 <= j < k < list@.len() ==> comes_before(list@[j], list@[k]),
                decreases self.calls@[m as int]@.len() - f,
            {
                let here = FuncRef { module: m, function: f };
                let hit: bool = if forward {
                    self.calls(fixed, here)
                } else {
                    self.calls(here, fixed)
                };
                assert(hit == self.related(fixed, here, forward));
                let ghost before = list@;
                if hit {
                    list.push(here);
                }
                proof {
                    lemma_push_has(before, here);
                    assert forall|o: FuncRef|
                        (o.module < m || (o.module == m && o.function < f + 1)) && self.related(
                            fixed,
                            o,
                            forward,
                        ) implies list@.contains(o) by {
                        if o.module == m && o.function == f {
                            assert(o == here);
                            assert(list@ == before.push(here));
                            assert(before.push(here).contains(o));
                        } else {
                            assert(before.contains(o));
                            if hit {
                                assert(list@ == before.push(here));
                                assert(before.push(here).contains(o));
                            } else {
                                assert(list@ == before);
                            }
                        }
                    }
                }
                f += 1;
            }
            m += 1;
        }
        proof {
            assert forall|o: FuncRef| list@.contains(o) implies self.related(fixed, o, forward) by {
                let k = choose|k: int| 0 <= k < list@.len() && list@[k] == o;
                assert(self.related(fixed, list@[k], forward));
            }
            assert forall|o: FuncRef| self.related(fixed, o, forward) implies list@.contains(o) by {
                assert(o.module < self.calls@.len());
            }
        }
        list
    }

    /// Every pair of a function and a function that it may call, each
    /// once, in the order of the program.
    pub fn edges(&self) -> (list: Vec<(FuncRef, FuncRef)>)
        requires
            self.well_formed(),
        ensures
            forall|e: (FuncRef, FuncRef)| list@.contains(e) <==> self.related(e.0, e.1, true),
            forall|j: int, k: int| 0 <= j < k < list@.len() ==> edge_before(list@[j], list@[k]),
    {
        let mut list: Vec<(FuncRef, FuncRef)> = Vec::new();
        let mut m: usize = 0;
        while m < self.calls.len()
            invariant
                self.well_formed(),
                m <= self.calls@.len(),
                forall|k: int|
                    0 <= k < list@.len() ==> caller_before((#[trigger] list@[k]).0, m, 0)
                        && self.related(list@[k].0, list@[k].1, true),
                forall|e: (FuncRef, FuncRef)|
                    caller_before(e.0, m, 0) && self.related(e.0, e.1, true) ==> list@.contains(e),
                forall|j: int, k: int|
                    0 <= j < k < list@.len() ==> edge_before(list@[j], list@[k]),
            decreases self.calls@.len() - m,
        {
            assert(module_ok(self.mods@, self.mods@[m as int], self.calls@[m as int]@));
            let mut f: usize = 0;
            while f < self.calls[m].len()
                invariant
                    self.well_formed(),
                    m < self.calls@.len(),
                    f <= self.calls@[m as int]@.len(),
                    self.calls@[m as int]@.len() == self.mods@[m as int].functions@.len(),
                    forall|k: int|
                        0 <= k < list@.len() ==> caller_before((#[trigger] list@[k]).0, m, f)
                            && self.related(list@[k].0, list@[k].1, true),
                    forall|e: (FuncRef, FuncRef)|
                        caller_before(e.0, m, f) && self.related(e.0, e.1, true)
                            ==> list@.contains(e),
                    forall|j: int, k: int|
                        0 <= j < k < list@.len() ==> edge_before(list@[j], list@[k]),
                decreases self.calls@[m as int]@.len() - f,
            {
                let here = FuncRef { module: m, function: f };
                let cs: Vec<FuncRef> = self.callees(here);
                let ghost before = list@;
                let mut t: usize = 0;
                while t < cs.len()
                    invariant
                        t <= cs@.len(),
                        list@.len() == before.len() + t,
                        forall|k: int| 0 <= k < before.len() ==> list@[k] == before[k],
                        forall|i: int| 0 <= i < t ==> list@[before.len() + i] == (here, cs@[i]),
                    decreases cs@.len() - t,
                {
                    list.push((here, cs[t]));
                    t += 1;
                }
                proof {
                    let base = before.len() as int;
                    assert forall|k: int| 0 <= k < list@.len() implies caller_before(
                        (#[trigger] list@[k]).0,
                        m,
                        (f + 1) as usize,
                    ) && self.related(list@[k].0, list@[k].1, true) by {
                        if k < base {
                            assert(list@[k] == before[k]);
                        } else {
                            assert(list@[base + (k - base)] == (here, cs@[k - base]));
                            assert(cs@.contains(cs@[k - base]));
                        }
                    }
                    assert forall|e: (FuncRef, FuncRef)|
                        caller_before(e.0, m, (f + 1) as usize) && self.related(
                            e.0,
                            e.1,
                            true,
                        ) implies list@.contains(e) by {
                        if caller_before(e.0, m, f) {
                            assert(before.contains(e));
                            let k = choose|k: int| 0 <= k < before.len() && before[k] == e;
                            assert(list@[k] == e);
                        } else {
                            assert(e.0 == here);
                            assert(cs@.contains(e.1));
                            let i = choose|i: int| 0 <= i < cs@.len() && cs@[i] == e.1;
                            assert(list@[base + i] == (here, cs@[i]));
                        }
                    }
                    assert forall|j: int, k: int| 0 <= j < k < list@.len() implies edge_before(
                        list@[j],
                        list@[k],
                    ) by {
                        if k < base {
                            assert(edge_before(before[j], before[k]));
                        } else if j < base {
                            assert(list@[j] == before[j]);
                            assert(caller_before(before[j].0, m, f));
                            assert(list@[base + (k - base)] == (here, cs@[k - base]));
                        } else {
                            assert(list@[base + (j - base)] == (here, cs@[j - base]));
                            assert(list@[base + (k - base)] == (here, cs@[k - base]));
                            assert(comes_before(cs@[j - base], cs@[k - base]));
                        }
                    }
                }
                f += 1;
            }
            m += 1;
        }
        proof {
            assert forall|e: (FuncRef, FuncRef)| list@.contains(e) implies self.related(
                e.0,
                e.1,
                true,
            ) by {
                let k = choose|k: int| 0 <= k < list@.len() && list@[k] == e;
                assert(self.related(list@[k].0, list@[k].1, true));
            }
        }
        list
    }

    /// The functions that `caller` may call, each once, in the order of the
    /// program.
    pub fn callees(&self, caller: FuncRef) -> (list: Vec<FuncRef>)
        requires
            self.well_formed(),
        ensures
            forall|o: FuncRef| list@.contains(o) <==> self.related(caller, o, true),
            forall|j: int, k: int| 0 <= j < k < list@.len() ==> comes_before(list@[j], list@[k]),
    {
        self.collect(caller, true)
    }

    /// The functions that may call `callee`, each once, in the order of
    /// the program.
    pub fn callers(&self, callee: FuncRef) -> (list: Vec<FuncRef>)
        requires
            self.well_formed(),
        ensures
            forall|o: FuncRef| list@.contains(o) <==> self.related(callee, o, false),
            forall|j: int, k: int| 0 <= j < k < list@.len() ==> comes_before(list@[j], list@[k]),
    {
        self.collect(callee, false)
    }
}

/// Whether `x` occurs in `v`.
fn holds(v: &Vec<FuncRef>, x: FuncRef) -> (r: bool)
    ensures
        r == v@.contains(x),
{
    let mut i: usize = 0;
    while i < v.len()
        invariant
            i <= v.len(),
            forall|k: int| 0 <= k < i ==> v@[k] != x,
        decreases v.len() - i,
    {
        if v[i] == x {
            return true;
        }
        i += 1;
    }
    false
}

} // verus!
