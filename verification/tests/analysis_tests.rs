use llvm_ir_analysis::analysis::check_program;
use llvm_ir_analysis::cache::{MappingCache, SimpleCache};
use llvm_ir_analysis::call_graph::{resolve, site_callees};
use llvm_ir_analysis::dominance::{dominator_sets, DomTable};
use llvm_ir_analysis::graph::reach_avoiding;
use llvm_ir_analysis::ir::{
    BasicBlock, FuncRef, Function, Instruction, Module, Signature, Terminator,
};
use llvm_ir_analysis::{
    Analysis, CFGNode, CallGraph, ControlDependenceGraph, ControlFlowGraph, DominatorTree, Error,
    FunctionsByType, PostDominatorTree,
};

const I32: u64 = 32;
const I64: u64 = 64;

fn sig(ret: u64, params: Vec<u64>) -> Signature {
    Signature { ret, params, variadic: false }
}

fn block(term: Terminator) -> BasicBlock {
    BasicBlock { instrs: vec![], term }
}

fn function(name: &str, blocks: Vec<BasicBlock>) -> Function {
    Function { name: name.to_string(), signature: sig(I32, vec![]), blocks }
}

fn module(name: &str, functions: Vec<Function>) -> Module {
    Module { name: name.to_string(), functions }
}

/// entry -> (A, B), A -> C, B -> C, C -> return
fn diamond() -> Function {
    function(
        "f",
        vec![
            block(Terminator::CondBr(1, 2)),
            block(Terminator::Br(3)),
            block(Terminator::Br(3)),
            block(Terminator::Ret),
        ],
    )
}

const ENTRY: CFGNode = CFGNode::Block(0);
const A: CFGNode = CFGNode::Block(1);
const B: CFGNode = CFGNode::Block(2);
const C: CFGNode = CFGNode::Block(3);

#[test]
fn diamond_cfg_has_five_nodes() {
    let f = diamond();
    assert!(f.is_well_formed());
    let cfg = ControlFlowGraph::new(&f);
    assert_eq!(cfg.num_nodes(), 5);
    assert_eq!(cfg.entry(), ENTRY);
    assert_eq!(cfg.succs(ENTRY), vec![A, B]);
    assert_eq!(cfg.succs(A), vec![C]);
    assert_eq!(cfg.succs(B), vec![C]);
    assert_eq!(cfg.succs(C), vec![CFGNode::Return]);
    assert_eq!(cfg.succs(CFGNode::Return), vec![]);
    assert_eq!(cfg.preds(ENTRY), vec![]);
    assert_eq!(cfg.preds(C), vec![A, B]);
    assert_eq!(cfg.preds(CFGNode::Return), vec![C]);
    assert_eq!(cfg.succs(CFGNode::Block(4)), vec![]);
    assert_eq!(cfg.index_of(CFGNode::Return), Some(4));
    assert_eq!(cfg.index_of(CFGNode::Block(9)), None);
    assert_eq!(cfg.node_at(4), CFGNode::Return);
    assert_eq!(cfg.node_at(2), B);
}

#[test]
fn diamond_dominator_tree() {
    let cfg = ControlFlowGraph::new(&diamond());
    let dt = DominatorTree::new(&cfg);
    assert_eq!(dt.idom(ENTRY), None);
    assert_eq!(dt.idom(A), Some(ENTRY));
    assert_eq!(dt.idom(B), Some(ENTRY));
    assert_eq!(dt.idom(C), Some(ENTRY));
    assert_eq!(dt.idom(CFGNode::Return), Some(C));
    assert!(dt.dominates(ENTRY, C));
    assert!(!dt.dominates(A, C));
    assert!(!dt.dominates(C, A));
    assert!(dt.is_reachable(C));
}

#[test]
fn diamond_postdominator_tree() {
    let cfg = ControlFlowGraph::new(&diamond());
    let pdt = PostDominatorTree::new(&cfg);
    assert_eq!(pdt.ipostdom(ENTRY), Some(C));
    assert_eq!(pdt.ipostdom(A), Some(C));
    assert_eq!(pdt.ipostdom(B), Some(C));
    assert_eq!(pdt.ipostdom(C), Some(CFGNode::Return));
    assert_eq!(pdt.ipostdom(CFGNode::Return), None);
    assert!(pdt.postdominates(C, ENTRY));
    assert!(!pdt.postdominates(A, ENTRY));
    assert!(pdt.reaches_exit(ENTRY));
}

#[test]
fn diamond_control_dependence() {
    let cfg = ControlFlowGraph::new(&diamond());
    let pdt = PostDominatorTree::new(&cfg);
    let cdg = ControlDependenceGraph::new(&cfg, &pdt);
    assert!(cdg.is_control_dependent(A, ENTRY));
    assert!(cdg.is_control_dependent(B, ENTRY));
    assert!(!cdg.is_control_dependent(C, ENTRY));
    assert!(!cdg.is_control_dependent(ENTRY, ENTRY));
    assert_eq!(cdg.get_control_dependents(ENTRY), vec![A, B]);
    assert_eq!(cdg.get_control_dependencies(A), vec![ENTRY]);
    assert_eq!(cdg.get_control_dependencies(C), vec![]);
    assert_eq!(cdg.get_control_dependents(CFGNode::Block(17)), vec![]);
}

#[test]
fn dominance_is_reflexive_and_transitive_on_a_chain() {
    let f = function(
        "chain",
        vec![block(Terminator::Br(1)), block(Terminator::Br(2)), block(Terminator::Ret)],
    );
    let cfg = ControlFlowGraph::new(&f);
    let dt = DominatorTree::new(&cfg);
    for i in 0..3 {
        assert!(dt.dominates(CFGNode::Block(i), CFGNode::Block(i)));
    }
    assert!(dt.dominates(CFGNode::Return, CFGNode::Return));
    assert!(dt.dominates(CFGNode::Block(0), CFGNode::Block(1)));
    assert!(dt.dominates(CFGNode::Block(1), CFGNode::Block(2)));
    assert!(dt.dominates(CFGNode::Block(0), CFGNode::Block(2)));
    assert!(!dt.dominates(CFGNode::Block(2), CFGNode::Block(0)));
    assert_eq!(dt.idom(CFGNode::Block(2)), Some(CFGNode::Block(1)));
    assert!(!dt.dominates(CFGNode::Block(5), CFGNode::Block(5)));
}

#[test]
fn straight_line_function_has_no_control_dependence() {
    let f = function(
        "chain",
        vec![block(Terminator::Br(1)), block(Terminator::Br(2)), block(Terminator::Ret)],
    );
    let cfg = ControlFlowGraph::new(&f);
    let pdt = PostDominatorTree::new(&cfg);
    let cdg = ControlDependenceGraph::new(&cfg, &pdt);
    for x in 0..4 {
        for y in 0..4 {
            assert!(!cdg.is_control_dependent(cfg.node_at(y), cfg.node_at(x)));
        }
    }
}

#[test]
fn unreachable_block_is_outside_the_dominator_tree() {
    let f = function("dead", vec![block(Terminator::Ret), block(Terminator::Br(0))]);
    let cfg = ControlFlowGraph::new(&f);
    let dt = DominatorTree::new(&cfg);
    assert!(!dt.is_reachable(CFGNode::Block(1)));
    assert_eq!(dt.idom(CFGNode::Block(1)), None);
    assert!(dt.is_reachable(CFGNode::Return));
    assert_eq!(cfg.preds(ENTRY), vec![CFGNode::Block(1)]);
}

#[test]
fn endless_loop_is_outside_the_postdominator_tree() {
    // entry -> (1, 2); 1 -> 1 for ever; 2 -> return
    let f = function(
        "spin",
        vec![block(Terminator::CondBr(1, 2)), block(Terminator::Br(1)), block(Terminator::Ret)],
    );
    let cfg = ControlFlowGraph::new(&f);
    let pdt = PostDominatorTree::new(&cfg);
    assert!(!pdt.reaches_exit(CFGNode::Block(1)));
    assert_eq!(pdt.ipostdom(CFGNode::Block(1)), None);
    assert!(pdt.reaches_exit(ENTRY));
    assert_eq!(pdt.ipostdom(ENTRY), Some(CFGNode::Block(2)));
    let cdg = ControlDependenceGraph::new(&cfg, &pdt);
    assert!(!cdg.is_control_dependent(CFGNode::Block(1), ENTRY));
    assert!(!cdg.is_control_dependent(CFGNode::Block(1), CFGNode::Block(1)));
}

#[test]
fn loop_header_depends_on_itself() {
    // entry -> 1; 1 -> (1, 2); 2 -> return
    let f = function(
        "loop",
        vec![block(Terminator::Br(1)), block(Terminator::CondBr(1, 2)), block(Terminator::Ret)],
    );
    let cfg = ControlFlowGraph::new(&f);
    let pdt = PostDominatorTree::new(&cfg);
    let cdg = ControlDependenceGraph::new(&cfg, &pdt);
    assert!(cdg.is_control_dependent(CFGNode::Block(1), CFGNode::Block(1)));
    assert!(!cdg.is_control_dependent(CFGNode::Block(2), CFGNode::Block(1)));
    assert_eq!(cdg.get_control_dependents(CFGNode::Block(1)), vec![CFGNode::Block(1)]);
}

#[test]
fn switch_with_repeated_targets_gives_one_edge_each() {
    let f = function(
        "sw",
        vec![
            block(Terminator::Switch(vec![1, 2, 1, 2], 1)),
            block(Terminator::Unreachable),
            block(Terminator::IndirectBr(vec![1, 1])),
        ],
    );
    let cfg = ControlFlowGraph::new(&f);
    assert_eq!(cfg.succs(ENTRY), vec![CFGNode::Block(1), CFGNode::Block(2)]);
    assert_eq!(cfg.succs(CFGNode::Block(1)), vec![CFGNode::Return]);
    assert_eq!(cfg.succs(CFGNode::Block(2)), vec![CFGNode::Block(1)]);
    assert_eq!(cfg.preds(CFGNode::Block(1)), vec![ENTRY, CFGNode::Block(2)]);
}

#[test]
fn single_block_self_loop_has_itself_as_predecessor() {
    let f = function("own", vec![block(Terminator::CondBr(0, 0))]);
    let cfg = ControlFlowGraph::new(&f);
    assert_eq!(cfg.num_nodes(), 2);
    assert_eq!(cfg.preds(ENTRY), vec![ENTRY]);
    assert_eq!(cfg.succs(CFGNode::Return), vec![]);
}

#[test]
fn reach_avoiding_leaves_out_what_lies_behind_the_avoided_node() {
    let adj: Vec<Vec<usize>> = vec![vec![1], vec![2], vec![], vec![0]];
    assert_eq!(reach_avoiding(&adj, 0, None), vec![true, true, true, false]);
    assert_eq!(reach_avoiding(&adj, 0, Some(1)), vec![true, false, false, false]);
    assert_eq!(reach_avoiding(&adj, 0, Some(0)), vec![false, false, false, false]);
}

#[test]
fn ill_formed_function_is_found() {
    let bad = function("bad", vec![block(Terminator::Br(1))]);
    assert!(!bad.is_well_formed());
    let decl = function("decl", vec![]);
    assert!(!decl.is_well_formed());
    assert!(!check_program(&vec![module("m", vec![bad])]));
    assert!(check_program(&vec![module("m", vec![decl, diamond()])]));
    assert!(!Terminator::Switch(vec![0, 3], 0).check_targets(3));
    assert!(Terminator::Switch(vec![0, 2], 1).check_targets(3));
}

#[test]
fn signatures_compare_by_all_three_parts() {
    let a = sig(I32, vec![I32]);
    assert!(a.same_as(&sig(I32, vec![I32])));
    assert!(!a.same_as(&sig(I32, vec![I64])));
    assert!(!a.same_as(&sig(I64, vec![I32])));
    assert!(!a.same_as(&sig(I32, vec![I32, I32])));
    assert!(!a.same_as(&Signature { ret: I32, params: vec![I32], variadic: true }));
    let b = a.duplicate();
    assert_eq!(b.ret, I32);
    assert_eq!(b.params, vec![I32]);
    assert!(!b.variadic);
}

#[test]
fn ambiguous_name_is_an_error() {
    let m1 = module("m1", vec![function("g", vec![block(Terminator::Ret)])]);
    let m2 = module("m2", vec![function("g", vec![block(Terminator::Ret)])]);
    let mut analysis = Analysis::new_multi_module(vec![m1, m2]);
    let name = "g".to_string();
    match analysis.control_flow_graph(&name) {
        Err(Error::AmbiguousName(n)) => assert_eq!(n, "g"),
        _ => panic!("expected the ambiguous-name error"),
    }
    assert!(matches!(analysis.dominator_tree(&name), Err(Error::AmbiguousName(_))));
    assert!(matches!(analysis.get_func_by_name(&name), Err(Error::AmbiguousName(_))));
    assert!(!analysis.control_flow_graphs.contains(&name));
}

#[test]
fn unknown_name_is_an_error() {
    let mut analysis = Analysis::new(module("m", vec![diamond(), function("ext", vec![])]));
    let name = "nothing".to_string();
    match analysis.control_flow_graph(&name) {
        Err(e) => {
            assert!(matches!(e, Error::UnknownName(_)));
            assert_eq!(e.message(), "nothing");
        },
        Ok(_) => panic!("expected the unknown-name error"),
    }
    assert!(matches!(analysis.postdominator_tree(&name), Err(Error::UnknownName(_))));
    assert!(matches!(analysis.control_dependence_graph(&name), Err(Error::UnknownName(_))));
    // a declaration has no body to analyze
    assert!(matches!(analysis.control_flow_graph(&"ext".to_string()), Err(Error::UnknownName(_))));
    assert_eq!(analysis.get_func_by_name(&name).unwrap(), None);
    assert_eq!(
        analysis.get_func_by_name(&"f".to_string()).unwrap(),
        Some(FuncRef { module: 0, function: 0 })
    );
}

#[test]
fn analyses_are_kept_and_build_on_each_other() {
    let mut analysis = Analysis::new(module("m", vec![diamond()]));
    assert_eq!(analysis.modules().len(), 1);
    let name = "f".to_string();
    assert!(!analysis.control_flow_graphs.contains(&name));
    let cdg_first = analysis.control_dependence_graph(&name).unwrap().deps.clone();
    assert!(analysis.control_flow_graphs.contains(&name));
    assert!(analysis.postdominator_trees.contains(&name));
    assert!(!analysis.dominator_trees.contains(&name));
    let succs_first = analysis.control_flow_graph(&name).unwrap().succs.clone();
    let succs_again = analysis.control_flow_graph(&name).unwrap().succs.clone();
    assert_eq!(succs_first, succs_again);
    let cdg_again = analysis.control_dependence_graph(&name).unwrap().deps.clone();
    assert_eq!(cdg_first, cdg_again);
    let idom = analysis.dominator_tree(&name).unwrap().idom(C);
    assert_eq!(idom, Some(ENTRY));
    assert!(analysis.dominator_trees.contains(&name));
    assert_eq!(analysis.postdominator_tree(&name).unwrap().ipostdom(A), Some(C));
}

#[test]
fn simple_cache_computes_once() {
    let mut count = 0;
    let mut cache: SimpleCache<u32> = SimpleCache::new();
    assert_eq!(cache.get(), None);
    assert_eq!(
        *cache.get_or_insert_with(|| {
            count += 1;
            7
        }),
        7
    );
    assert_eq!(
        *cache.get_or_insert_with(|| {
            count += 1;
            8
        }),
        7
    );
    assert_eq!(count, 1);
    assert_eq!(cache.get(), Some(&7));
}

#[test]
fn mapping_cache_computes_once_for_each_key() {
    let mut count = 0;
    let mut cache: MappingCache<u32> = MappingCache::new();
    let a = "a".to_string();
    let b = "b".to_string();
    assert!(!cache.contains(&a));
    assert_eq!(cache.get(&a), None);
    assert_eq!(
        *cache.get_or_insert_with(&a, || {
            count += 1;
            1
        }),
        1
    );
    assert_eq!(
        *cache.get_or_insert_with(&a, || {
            count += 1;
            2
        }),
        1
    );
    assert_eq!(
        *cache.get_or_insert_with(&b, || {
            count += 1;
            3
        }),
        3
    );
    assert_eq!(count, 2);
    assert!(cache.contains(&a));
    assert_eq!(cache.get(&b), Some(&3));
}

fn caller_with(instrs: Vec<Instruction>) -> Function {
    Function {
        name: "main".to_string(),
        signature: sig(I32, vec![]),
        blocks: vec![BasicBlock { instrs, term: Terminator::Ret }],
    }
}

fn named_with(name: &str, signature: Signature) -> Function {
    Function { name: name.to_string(), signature, blocks: vec![block(Terminator::Ret)] }
}

#[test]
fn indirect_call_reaches_the_functions_of_its_type_only() {
    let modules = vec![module(
        "m",
        vec![
            caller_with(vec![Instruction::Other, Instruction::IndirectCall(sig(I32, vec![I32]))]),
            named_with("h1", sig(I32, vec![I32])),
            named_with("h2", sig(I32, vec![I64])),
        ],
    )];
    let index = FunctionsByType::new(&modules);
    let graph = CallGraph::new(&modules, &index).unwrap();
    let main = FuncRef { module: 0, function: 0 };
    let h1 = FuncRef { module: 0, function: 1 };
    let h2 = FuncRef { module: 0, function: 2 };
    assert_eq!(graph.calls[0][0][0][1], vec![h1]);
    assert_eq!(graph.calls[0][0][0][0], vec![]);
    assert_eq!(graph.callees(main), vec![h1]);
    assert_eq!(graph.callers(h1), vec![main]);
    assert_eq!(graph.callers(h2), vec![]);
    assert!(graph.calls(main, h1));
    assert!(!graph.calls(main, h2));
    assert!(!graph.calls(h1, main));
    assert!(!graph.calls(FuncRef { module: 3, function: 0 }, h1));
}

#[test]
fn indirect_call_of_a_type_that_no_function_has_calls_nothing() {
    let modules = vec![module(
        "m",
        vec![
            caller_with(vec![Instruction::IndirectCall(sig(I64, vec![]))]),
            named_with("h1", sig(I32, vec![I32])),
        ],
    )];
    let index = FunctionsByType::new(&modules);
    assert_eq!(index.functions_with_type(&sig(I64, vec![])), vec![]);
    let graph = CallGraph::new(&modules, &index).unwrap();
    assert_eq!(graph.callees(FuncRef { module: 0, function: 0 }), vec![]);
}

#[test]
fn direct_call_gives_one_edge_to_the_named_function() {
    let m1 = module(
        "m1",
        vec![caller_with(vec![
            Instruction::DirectCall("h".to_string()),
            Instruction::DirectCall("ext".to_string()),
        ])],
    );
    let m2 = module(
        "m2",
        vec![named_with("h", sig(I32, vec![])), Function {
            name: "ext".to_string(),
            signature: sig(I32, vec![]),
            blocks: vec![],
        }],
    );
    let mut analysis = Analysis::new_multi_module(vec![m1, m2]);
    let main = FuncRef { module: 0, function: 0 };
    let h = FuncRef { module: 1, function: 0 };
    let ext = FuncRef { module: 1, function: 1 };
    let graph = analysis.call_graph().unwrap();
    assert_eq!(graph.calls[0][0][0][0], vec![h]);
    assert_eq!(graph.calls[0][0][0][1], vec![ext]);
    assert_eq!(graph.callees(main), vec![h, ext]);
    assert_eq!(graph.callers(ext), vec![main]);
    let index = analysis.functions_by_type();
    assert_eq!(index.functions_with_type(&sig(I32, vec![])), vec![main, h, ext]);
}

#[test]
fn direct_call_of_a_missing_function_is_an_error() {
    let modules = vec![module(
        "m",
        vec![caller_with(vec![Instruction::DirectCall("gone".to_string())])],
    )];
    let index = FunctionsByType::new(&modules);
    match CallGraph::new(&modules, &index) {
        Err(Error::CallGraph(name)) => assert_eq!(name, "gone"),
        _ => panic!("expected the call-graph error"),
    }
    assert_eq!(resolve(&modules, &"gone".to_string()), None);
    assert_eq!(
        resolve(&modules, &"main".to_string()),
        Some(FuncRef { module: 0, function: 0 })
    );
    assert!(matches!(
        site_callees(&modules, &index, &Instruction::DirectCall("gone".to_string())),
        Err(Error::CallGraph(_))
    ));
    let mut analysis = Analysis::new_multi_module(modules);
    assert!(matches!(analysis.call_graph(), Err(Error::CallGraph(_))));
    assert!(analysis.call_graph.get().is_none());
    assert!(analysis.functions_by_type.get().is_some());
}

#[test]
fn empty_program_has_an_empty_index() {
    let modules: Vec<Module> = vec![];
    let index = FunctionsByType::new(&modules);
    assert_eq!(index.functions_with_type(&sig(I32, vec![])), vec![]);
    let graph = CallGraph::new(&modules, &index).unwrap();
    assert_eq!(graph.calls.len(), 0);
}

#[test]
fn module_finds_the_first_function_with_a_body() {
    let m = module(
        "m",
        vec![function("f", vec![]), diamond(), function("f", vec![block(Terminator::Ret)])],
    );
    assert_eq!(m.get_func_by_name(&"f".to_string()), Some(1));
    assert_eq!(m.get_func_by_name(&"g".to_string()), None);
}

#[test]
fn dominator_sets_of_a_loop() {
    // 0 -> 1, 1 -> 2, 2 -> 1, 2 -> 3, and 4 out of reach with an edge to 1
    let adj: Vec<Vec<usize>> = vec![vec![1], vec![2], vec![1, 3], vec![], vec![1]];
    let radj: Vec<Vec<usize>> = vec![vec![], vec![0, 2, 4], vec![1], vec![2], vec![]];
    let reach = reach_avoiding(&adj, 0, None);
    assert_eq!(reach, vec![true, true, true, true, false]);
    let sets = dominator_sets(&adj, &radj, 0, &reach);
    assert_eq!(sets[0], vec![true, false, false, false, false]);
    assert_eq!(sets[1], vec![true, true, false, false, false]);
    assert_eq!(sets[2], vec![true, true, true, false, false]);
    assert_eq!(sets[3], vec![true, true, true, true, false]);
    assert_eq!(sets[4], vec![false, false, false, false, false]);
    let table = DomTable::compute(&adj, &radj, 0);
    assert_eq!(table.idom, vec![None, Some(0), Some(1), Some(2), None]);
    assert_eq!(table.reach, reach);
    assert_eq!(table.doms, sets);
    assert!(table.walk_dominates(0, 3));
    assert!(table.walk_dominates(2, 2));
    assert!(!table.walk_dominates(3, 0));
    assert!(!table.walk_dominates(0, 4));
    let mut row = vec![false; 5];
    table.mark_up_to(&mut row, 3, 0);
    assert_eq!(row, vec![false, true, true, true, false]);
}

#[test]
fn dominators_where_two_ways_meet_inside_a_loop() {
    // entry -> (1, 2); 1 -> 2; 2 -> 1; 1 -> 3; 3 -> return
    let f = function(
        "knot",
        vec![
            block(Terminator::CondBr(1, 2)),
            block(Terminator::CondBr(2, 3)),
            block(Terminator::Br(1)),
            block(Terminator::Ret),
        ],
    );
    let cfg = ControlFlowGraph::new(&f);
    let dt = DominatorTree::new(&cfg);
    assert_eq!(dt.idom(CFGNode::Block(1)), Some(ENTRY));
    assert_eq!(dt.idom(CFGNode::Block(2)), Some(ENTRY));
    assert_eq!(dt.idom(CFGNode::Block(3)), Some(CFGNode::Block(1)));
    assert_eq!(dt.idom(CFGNode::Return), Some(CFGNode::Block(3)));
    assert!(!dt.dominates(CFGNode::Block(2), CFGNode::Block(1)));
    let pdt = PostDominatorTree::new(&cfg);
    assert_eq!(pdt.ipostdom(ENTRY), Some(CFGNode::Block(1)));
    assert_eq!(pdt.ipostdom(CFGNode::Block(2)), Some(CFGNode::Block(1)));
    assert_eq!(pdt.ipostdom(CFGNode::Block(1)), Some(CFGNode::Block(3)));
    let cdg = ControlDependenceGraph::new(&cfg, &pdt);
    assert_eq!(cdg.get_control_dependents(ENTRY), vec![CFGNode::Block(2)]);
    assert_eq!(
        cdg.get_control_dependents(CFGNode::Block(1)),
        vec![CFGNode::Block(1), CFGNode::Block(2)]
    );
}

#[test]
fn edges_list_each_pair_once() {
    let modules = vec![module(
        "m",
        vec![
            caller_with(vec![
                Instruction::DirectCall("h1".to_string()),
                Instruction::IndirectCall(sig(I32, vec![I32])),
                Instruction::DirectCall("main".to_string()),
            ]),
            named_with("h1", sig(I32, vec![I32])),
            Function {
                name: "h3".to_string(),
                signature: sig(I32, vec![I32]),
                blocks: vec![BasicBlock {
                    instrs: vec![Instruction::DirectCall("h1".to_string())],
                    term: Terminator::Ret,
                }],
            },
        ],
    )];
    let index = FunctionsByType::new(&modules);
    let graph = CallGraph::new(&modules, &index).unwrap();
    let main = FuncRef { module: 0, function: 0 };
    let h1 = FuncRef { module: 0, function: 1 };
    let h3 = FuncRef { module: 0, function: 2 };
    assert_eq!(graph.calls[0][0][0][1], vec![h1, h3]);
    assert_eq!(graph.edges(), vec![(main, main), (main, h1), (main, h3), (h3, h1)]);
    assert_eq!(graph.callers(h1), vec![main, h3]);
}

#[test]
fn first_missing_function_is_reported() {
    let modules = vec![
        module("m1", vec![caller_with(vec![
            Instruction::DirectCall("main".to_string()),
            Instruction::DirectCall("first".to_string()),
            Instruction::DirectCall("second".to_string()),
        ])]),
        module("m2", vec![Function {
            name: "other".to_string(),
            signature: sig(I32, vec![]),
            blocks: vec![BasicBlock {
                instrs: vec![Instruction::DirectCall("third".to_string())],
                term: Terminator::Ret,
            }],
        }]),
    ];
    let index = FunctionsByType::new(&modules);
    match CallGraph::new(&modules, &index) {
        Err(e) => assert_eq!(e.message(), "first"),
        Ok(_) => panic!("expected the call-graph error"),
    }
}

#[test]
fn exit_has_no_successor_and_entry_no_predecessor() {
    let cfg = ControlFlowGraph::new(&diamond());
    assert!(cfg.succs[4].is_empty());
    assert!(cfg.preds[0].is_empty());
    assert_eq!(cfg.succs[0], vec![1, 2]);
    assert_eq!(cfg.preds[3], vec![1, 2]);
    let swapped = function(
        "swapped",
        vec![block(Terminator::CondBr(2, 1)), block(Terminator::Ret), block(Terminator::Br(1))],
    );
    let cfg = ControlFlowGraph::new(&swapped);
    assert_eq!(cfg.succs[0], vec![2, 1]);
    assert_eq!(cfg.preds[1], vec![0, 2]);
}
