//! The analyses of a program, each computed when it is first asked for and
//! kept for every later request.
use vstd::prelude::*;
use crate::cache::{MappingCache, SimpleCache};
use crate::call_graph::{program_dangling, program_first_dangling, CallGraph};
use crate::control_dep_graph::ControlDependenceGraph;
use crate::control_flow_graph::ControlFlowGraph;
use crate::dominator_tree::{DominatorTree, PostDominatorTree};
use crate::error::Error;
use crate::functions_by_type::FunctionsByType;
use crate::ir::{function_at, FuncRef, Function, Module};

verus! {

/// Every function with a body names blocks of its own only.
pub open spec fn program_well_formed(mods: Seq<Module>) -> bool {
    forall|m: int, f: int|
        0 <= m < mods.len() && 0 <= f < mods[m].functions@.len() && (
        #[trigger] mods[m].functions@[f]).has_body() ==> mods[m].functions@[f].well_formed()
}

/// Module `m` has a function with a body and the name `name`.
pub open spec fn defined_in(mods: Seq<Module>, name: Seq<char>, m: int) -> bool {
    0 <= m < mods.len() && mods[m].defines(name)
}

/// No module has a function with a body and the name `name`.
pub open spec fn unknown_name(mods: Seq<Module>, name: Seq<char>) -> bool {
    forall|m: int| !defined_in(mods, name, m)
}

/// Two modules have a function with a body and the name `name`.
pub open spec fn ambiguous_name(mods: Seq<Module>, name: Seq<char>) -> bool {
    exists|m1: int, m2: int|
        m1 != m2 && defined_in(mods, name, m1) && defined_in(mods, name, m2)
}

/// One module alone has a function with a body and the name `name`, and
/// `r` is the first such function of that module.
pub open spec fn found_at(mods: Seq<Module>, name: Seq<char>, r: FuncRef) -> bool {
    &&& r.module < mods.len()
    &&& mods[r.module as int].first_defined(name, r.function as int)
    &&& forall|m: int| defined_in(mods, name, m) ==> m == r.module
}

/// The error `e` says truly why `name` could not be looked up.
pub open spec fn lookup_failed(mods: Seq<Module>, name: Seq<char>, e: Error) -> bool {
    match e {
        Error::UnknownName(n) => n@ == name && unknown_name(mods, name),
        Error::AmbiguousName(n) => n@ == name && ambiguous_name(mods, name),
        Error::CallGraph(_) => false,
    }
}

/// Whether every function with a body names blocks of its own only.
pub fn check_program(modules: &Vec<Module>) -> (r: bool)
    ensures
        r == program_well_formed(modules@),
{
    let mut m: usize = 0;
    while m < modules.len()
        invariant
            m <= modules@.len(),
            forall|a: int, f: int|
                0 <= a < m && 0 <= f < modules@[a].functions@.len() && (
                #[trigger] modules@[a].functions@[f]).has_body()
                    ==> modules@[a].functions@[f].well_formed(),
        decreases modules@.len() - m,
    {
        let mut f: usize = 0;
        while f < modules[m].functions.len()
            invariant
                m < modules@.len(),
                f <= modules@[m as int].functions@.len(),
                forall|a: int, k: int|
                    0 <= a < m && 0 <= k < modules@[a].functions@.len() && (
                    #[trigger] modules@[a].functions@[k]).has_body()
                        ==> modules@[a].functions@[k].well_formed(),
                forall|k: int|
                    0 <= k < f && (#[trigger] modules@[m as int].functions@[k]).has_body()
                        ==> modules@[m as int].functions@[k].well_formed(),
            decreases modules@[m as int].functions@.len() - f,
        {
            let func: &Function = &modules[m].functions[f];
            if func.blocks.len() > 0 && !func.is_well_formed() {
                assert(modules@[m as int].functions@[f as int].has_body());
                return false;
            }
            f += 1;
        }
        m += 1;
    }
    true
}

/// Computes, and keeps, the analyses of a set of modules.
pub struct Analysis {
    /// The modules.
    pub modules: Vec<Module>,
    /// The call graph.
    pub call_graph: SimpleCache<CallGraph>,
    /// The functions by their type.
    pub functions_by_type: SimpleCache<FunctionsByType>,
    /// For a function's name, its control-flow graph.
    pub control_flow_graphs: MappingCache<ControlFlowGraph>,
    /// For a function's name, its dominator tree.
    pub dominator_trees: MappingCache<DominatorTree>,
    /// For a function's name, its post-dominator tree.
    pub postdominator_trees: MappingCache<PostDominatorTree>,
    /// For a function's name, its control-dependence graph.
    pub control_dep_graphs: MappingCache<ControlDependenceGraph>,
}

impl Analysis {
    /// `cfg` is the control-flow graph of the one function called `name`.
    pub open spec fn is_cfg_for(&self, name: Seq<char>, cfg: ControlFlowGraph) -> bool {
        exists|r: FuncRef| #[trigger]
            found_at(self.modules@, name, r) && cfg.is_graph_of(function_at(self.modules@, r))
    }

    /// Whatever has been computed is the analysis of these modules that it
    /// stands for.
    pub open spec fn well_formed(&self) -> bool {
        &&& program_well_formed(self.modules@)
        &&& match self.functions_by_type.data {
            Some(i) => i.well_formed() && i.mods@ == self.modules@,
            None => true,
        }
        &&& match self.call_graph.data {
            Some(g) => g.well_formed() && g.mods@ == self.modules@,
            None => true,
        }
        &&& forall|name: Seq<char>| #[trigger]
            self.control_flow_graphs@.contains_key(name) ==> self.is_cfg_for(
                name,
                self.control_flow_graphs@[name],
            )
        &&& forall|name: Seq<char>| #[trigger]
            self.dominator_trees@.contains_key(name) ==> self.control_flow_graphs@.contains_key(
                name,
            ) && self.dominator_trees@[name].is_tree_of(&self.control_flow_graphs@[name])
        &&& forall|name: Seq<char>| #[trigger]
            self.postdominator_trees@.contains_key(name)
                ==> self.control_flow_graphs@.contains_key(name)
                && self.postdominator_trees@[name].is_tree_of(&self.control_flow_graphs@[name])
        &&& forall|name: Seq<char>| #[trigger]
            self.control_dep_graphs@.contains_key(name) ==> self.control_flow_graphs@.contains_key(
                name,
            ) && self.control_dep_graphs@[name].is_graph_of(&self.control_flow_graphs@[name])
    }

    /// Nothing that `before` had computed has been lost or changed.
    pub open spec fn keeps(&self, before: &Analysis) -> bool {
        &&& self.modules == before.modules
        &&& before.functions_by_type.data is Some ==> self.functions_by_type.data
            == before.functions_by_type.data
        &&& before.call_graph.data is Some ==> self.call_graph.data == before.call_graph.data
        &&& before.control_flow_graphs@.submap_of(self.control_flow_graphs@)
        &&& before.dominator_trees@.submap_of(self.dominator_trees@)
        &&& before.postdominator_trees@.submap_of(self.postdominator_trees@)
        &&& before.control_dep_graphs@.submap_of(self.control_dep_graphs@)
    }

    /// Nothing has been computed since `before`.
    pub open spec fn same_as(&self, before: &Analysis) -> bool {
        &&& self.modules == before.modules
        &&& self.functions_by_type.data == before.functions_by_type.data
        &&& self.call_graph.data == before.call_graph.data
        &&& self.control_flow_graphs@ == before.control_flow_graphs@
        &&& self.dominator_trees@ == before.dominator_trees@
        &&& self.postdominator_trees@ == before.postdominator_trees@
        &&& self.control_dep_graphs@ == before.control_dep_graphs@
    }

    /// An analysis of one module, with nothing computed yet.
    pub fn new(module: Module) -> (a: Analysis)
        requires
            program_well_formed(seq![module]),
        ensures
            a.well_formed(),
            a.modules@ == seq![module],
            a.nothing_computed(),
    {
        let mut modules: Vec<Module> = Vec::new();
        modules.push(module);
        assert(modules@ =~= seq![module]);
        Analysis::new_multi_module(modules)
    }

    /// No analysis has been computed.
    pub open spec fn nothing_computed(&self) -> bool {
        &&& self.call_graph.data is None
        &&& self.functions_by_type.data is None
        &&& self.control_flow_graphs@ == Map::<Seq<char>, ControlFlowGraph>::empty()
        &&& self.dominator_trees@ == Map::<Seq<char>, DominatorTree>::empty()
        &&& self.postdominator_trees@ == Map::<Seq<char>, PostDominatorTree>::empty()
        &&& self.control_dep_graphs@ == Map::<Seq<char>, ControlDependenceGraph>::empty()
    }

    /// An analysis of several modules, with nothing computed yet.
    pub fn new_multi_module(modules: Vec<Module>) -> (a: Analysis)
        requires
            program_well_formed(modules@),
        ensures
            a.well_formed(),
            a.modules == modules,
            a.nothing_computed(),
    {
        Analysis {
            modules,
            call_graph: SimpleCache::new(),
            functions_by_type: SimpleCache::new(),
            control_flow_graphs: MappingCache::new(),
            dominator_trees: MappingCache::new(),
            postdominator_trees: MappingCache::new(),
            control_dep_graphs: MappingCache::new(),
        }
    }

    /// The analyzed modules.
    pub fn modules(&self) -> (r: &Vec<Module>)
        ensures
            *r == self.modules,
    {
        &self.modules
    }

    /// The function with a body and the given name: `None` where no module
    /// has one, an error where two modules have one.
    pub fn get_func_by_name(&self, func_name: &str) -> (r: Result<Option<FuncRef>, Error>)
        ensures
            match r {
                Ok(Some(x)) => found_at(self.modules@, func_name@, x),
                Ok(None) => unknown_name(self.modules@, func_name@),
                Err(e) => e matches Error::AmbiguousName(n) && n@ == func_name@ && ambiguous_name(
                    self.modules@,
                    func_name@,
                ),
            },
    {
        let mut found: Option<FuncRef> = None;
        let mut m: usize = 0;
        while m < self.modules.len()
            invariant
                m <= self.modules@.len(),
                match found {
                    Some(x) => x.module < m && self.modules@[x.module as int].first_defined(
                        func_name@,
                        x.function as int,
                    ) && forall|k: int|
                        k < m && defined_in(self.modules@, func_name@, k) ==> k == x.module,
                    None => forall|k: int| k < m ==> !defined_in(self.modules@, func_name@, k),
                },
            decreases self.modules@.len() - m,
        {
            match self.modules[m].get_func_by_name(func_name) {
                Some(i) => {
                    assert(self.modules@[m as int].functions@[i as int].name@ == func_name@);
                    assert(defined_in(self.modules@, func_name@, m as int));
                    match found {
                        Some(x) => {
                            assert(self.modules@[x.module as int].functions@[x.function as int].name@
                                == func_name@);
                            assert(defined_in(self.modules@, func_name@, x.module as int));
                            return Err(Error::AmbiguousName(func_name.to_owned()));
                        },
                        None => {
                            found = Some(FuncRef { module: m, function: i });
                        },
                    }
                },
                None => {},
            }
            m += 1;
        }
        Ok(found)
    }

    /// The functions by their type, computed at the first request.
    pub fn functions_by_type(&mut self) -> (r: &FunctionsByType)
        requires
            old(self).well_formed(),
        ensures
            final(self).well_formed(),
            final(self).keeps(old(self)),
            final(self).functions_by_type.data == Some(*r),
            r.well_formed(),
            r.mods@ == old(self).modules@,
            final(self).call_graph.data == old(self).call_graph.data,
            final(self).control_flow_graphs@ == old(self).control_flow_graphs@,
            final(self).dominator_trees@ == old(self).dominator_trees@,
            final(self).postdominator_trees@ == old(self).postdominator_trees@,
            final(self).control_dep_graphs@ == old(self).control_dep_graphs@,
    {
        let modules: &Vec<Module> = &self.modules;
        let build = || -> (i: FunctionsByType)
            ensures
                i.well_formed(),
                i.mods@ == modules@,
            { FunctionsByType::new(modules) };
        self.functions_by_type.get_or_insert_with(build)
    }

    /// The call graph of the modules, computed at the first request. It
    /// fails where a direct call names a function that no module holds;
    /// nothing is kept of a failure.
    pub fn call_graph(&mut self) -> (r: Result<&CallGraph, Error>)
        requires
            old(self).well_formed(),
        ensures
            final(self).well_formed(),
            final(self).keeps(old(self)),
            match r {
                Ok(g) => final(self).call_graph.data == Some(*g) && g.well_formed() && g.mods@
                    == old(self).modules@,
                Err(e) => e matches Error::CallGraph(n) && program_dangling(
                    old(self).modules@,
                    old(self).modules@,
                    n@,
                ) && program_first_dangling(old(self).modules@, n@) && final(self).call_graph.data is None,
            },
            r is Err <==> exists|name: Seq<char>|
                program_dangling(old(self).modules@, old(self).modules@, name),
    {
        if self.call_graph.data.is_none() {
            let _ = self.functions_by_type();
            let built: Result<CallGraph, Error> = CallGraph::new(
                &self.modules,
                self.functions_by_type.data.as_ref().unwrap(),
            );
            match built {
                Ok(g) => {
                    self.call_graph.data = Some(g);
                },
                Err(e) => {
                    return Err(e);
                },
            }
        }
        proof {
            let g = self.call_graph.data.unwrap();
            assert forall|name: Seq<char>| !program_dangling(
                self.modules@,
                self.modules@,
                name,
            ) by {
                crate::call_graph::law_complete_graph_has_no_dangling_call(
                    self.modules@,
                    g.calls@,
                    name,
                );
            }
        }
        Ok(self.call_graph.data.as_ref().unwrap())
    }

    /// The control-flow graph of the function with the given name,
    /// computed at the first request. It fails where no module, or more
    /// than one, has a function with a body and that name; nothing is kept
    /// of a failure.
    pub fn control_flow_graph(&mut self, func_name: &str) -> (r: Result<
        &ControlFlowGraph,
        Error,
    >)
        requires
            old(self).well_formed(),
        ensures
            final(self).well_formed(),
            final(self).keeps(old(self)),
            match r {
                Ok(cfg) => final(self).control_flow_graphs@.contains_key(func_name@) && final(self).control_flow_graphs@[func_name@] == *cfg && final(self).is_cfg_for(
                    func_name@,
                    *cfg,
                ),
                Err(e) => lookup_failed(old(self).modules@, func_name@, e) && final(self).same_as(
                    old(self),
                ),
            },
            old(self).control_flow_graphs@.contains_key(func_name@) ==> final(self).same_as(
                old(self),
            ),
    {
        if !self.control_flow_graphs.contains(func_name) {
            let at: FuncRef = match self.get_func_by_name(func_name) {
                Ok(Some(x)) => x,
                Ok(None) => {
                    return Err(Error::UnknownName(func_name.to_owned()));
                },
                Err(e) => {
                    return Err(e);
                },
            };
            let func: &Function = &self.modules[at.module].functions[at.function];
            assert(func.has_body());
            let build = || -> (g: ControlFlowGraph)
                requires
                    func.well_formed(),
                ensures
                    g.is_graph_of(*func),
                { ControlFlowGraph::new(func) };
            let _ = self.control_flow_graphs.get_or_insert_with(func_name, build);
            assert(found_at(self.modules@, func_name@, at));
        }
        Ok(self.control_flow_graphs.get(func_name).unwrap())
    }

    /// The dominator tree of the function with the given name, computed at
    /// the first request from its control-flow graph. It fails as
    /// `control_flow_graph` does.
    pub fn dominator_tree(&mut self, func_name: &str) -> (r: Result<&DominatorTree, Error>)
        requires
            old(self).well_formed(),
        ensures
            final(self).well_formed(),
            final(self).keeps(old(self)),
            match r {
                Ok(t) => final(self).dominator_trees@.contains_key(func_name@) && final(self).dominator_trees@[func_name@] == *t && final(self).control_flow_graphs@.contains_key(func_name@) && t.is_tree_of(
                    &final(self).control_flow_graphs@[func_name@],
                ),
                Err(e) => lookup_failed(old(self).modules@, func_name@, e) && final(self).same_as(
                    old(self),
                ),
            },
            old(self).dominator_trees@.contains_key(func_name@) ==> final(self).same_as(old(self)),
    {
        if !self.dominator_trees.contains(func_name) {
            match self.control_flow_graph(func_name) {
                Ok(_) => {},
                Err(e) => {
                    return Err(e);
                },
            }
            let cfg: &ControlFlowGraph = self.control_flow_graphs.get(func_name).unwrap();
            let build = || -> (t: DominatorTree)
                requires
                    cfg.well_formed(),
                ensures
                    t.is_tree_of(cfg),
                { DominatorTree::new(cfg) };
            let _ = self.dominator_trees.get_or_insert_with(func_name, build);
        }
        Ok(self.dominator_trees.get(func_name).unwrap())
    }

    /// The post-dominator tree of the function with the given name,
    /// computed at the first request from its control-flow graph. It fails
    /// as `control_flow_graph` does.
    pub fn postdominator_tree(&mut self, func_name: &str) -> (r: Result<
        &PostDominatorTree,
        Error,
    >)
        requires
            old(self).well_formed(),
        ensures
            final(self).well_formed(),
            final(self).keeps(old(self)),
            match r {
                Ok(t) => final(self).postdominator_trees@.contains_key(func_name@) && final(self).postdominator_trees@[func_name@] == *t && final(self).control_flow_graphs@.contains_key(func_name@) && t.is_tree_of(
                    &final(self).control_flow_graphs@[func_name@],
                ),
                Err(e) => lookup_failed(old(self).modules@, func_name@, e) && final(self).same_as(
                    old(self),
                ),
            },
            old(self).postdominator_trees@.contains_key(func_name@) ==> final(self).same_as(
                old(self),
            ),
    {
        if !self.postdominator_trees.contains(func_name) {
            match self.control_flow_graph(func_name) {
                Ok(_) => {},
                Err(e) => {
                    return Err(e);
                },
            }
            let cfg: &ControlFlowGraph = self.control_flow_graphs.get(func_name).unwrap();
            let build = || -> (t: PostDominatorTree)
                requires
                    cfg.well_formed(),
                ensures
                    t.is_tree_of(cfg),
                { PostDominatorTree::new(cfg) };
            let _ = self.postdominator_trees.get_or_insert_with(func_name, build);
        }
        Ok(self.postdominator_trees.get(func_name).unwrap())
    }

    /// The control-dependence graph of the function with the given name,
    /// computed at the first request from its control-flow graph and its
    /// post-dominator tree. It fails as `control_flow_graph` does.
    pub fn control_dependence_graph(&mut self, func_name: &str) -> (r: Result<
        &ControlDependenceGraph,
        Error,
    >)
        requires
            old(self).well_formed(),
        ensures
            final(self).well_formed(),
            final(self).keeps(old(self)),
            match r {
                Ok(g) => final(self).control_dep_graphs@.contains_key(func_name@) && final(self).control_dep_graphs@[func_name@] == *g && final(self).control_flow_graphs@.contains_key(func_name@) && g.is_graph_of(
                    &final(self).control_flow_graphs@[func_name@],
                ),
                Err(e) => lookup_failed(old(self).modules@, func_name@, e) && final(self).same_as(
                    old(self),
                ),
            },
            old(self).control_dep_graphs@.contains_key(func_name@) ==> final(self).same_as(
                old(self),
            ),
    {
        if !self.control_dep_graphs.contains(func_name) {
            match self.postdominator_tree(func_name) {
                Ok(_) => {},
                Err(e) => {
                    return Err(e);
                },
            }
            let cfg: &ControlFlowGraph = self.control_flow_graphs.get(func_name).unwrap();
            let pdt: &PostDominatorTree = self.postdominator_trees.get(func_name).unwrap();
            let build = || -> (g: ControlDependenceGraph)
                requires
                    cfg.well_formed(),
                    pdt.is_tree_of(cfg),
                ensures
                    g.is_graph_of(cfg),
                { ControlDependenceGraph::new(cfg, pdt) };
            let _ = self.control_dep_graphs.get_or_insert_with(func_name, build);
        }
        Ok(self.control_dep_graphs.get(func_name).unwrap())
    }
}

} // verus!
