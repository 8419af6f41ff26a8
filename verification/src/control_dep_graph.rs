//! The control-dependence graph of a function: which nodes run or not
//! according to the way that a branching node takes.
use vstd::prelude::*;
use crate::control_flow_graph::{law_exit_has_no_successor, CFGNode, ControlFlowGraph};
use crate::dominance::{
    dominates, law_dominance_transitive, law_dominators_comparable,
    law_dominators_through_idom, law_idom_exists, law_strict_dominance_one_way,
    lemma_dominator_of_pred, strictly_dominates,
};
use crate::dominator_tree::{node_index, node_of, PostDominatorTree};
use crate::graph::{
    edge, is_path, keeps_clear, lemma_path_extend, lemma_path_prefix, path_from_to, reaches,
};

verus! {

/// Taking the edge from `x` to `b` decides that `y` runs: the exit can be
/// reached from `b`, every walk from `b` to the exit passes through `y`,
/// and not every walk from `x` does, unless `y` is `x`.
pub open spec fn depends_via(
    preds: Seq<Vec<usize>>,
    exit: usize,
    y: usize,
    x: usize,
    b: usize,
) -> bool {
    &&& reaches(preds, exit, b)
    &&& dominates(preds, exit, y, b)
    &&& !strictly_dominates(preds, exit, y, x)
}

/// `y` is control-dependent on `x`: some edge out of `x` decides that `y`
/// runs.
pub open spec fn control_dependent(
    succs: Seq<Vec<usize>>,
    preds: Seq<Vec<usize>>,
    exit: usize,
    y: usize,
    x: usize,
) -> bool {
    exists|b: usize| #[trigger] edge(succs, x, b) && depends_via(preds, exit, y, x, b)
}

/// On a walk from the exit against the edges, no node is `x` where `x` is
/// not the exit and leads only to itself.
proof fn lemma_trapped(cfg: &ControlFlowGraph, x: usize, p: Seq<usize>, k: int)
    requires
        cfg.well_formed(),
        is_path(cfg.preds@, p),
        p[0] == cfg.exit(),
        x != cfg.exit(),
        forall|c: usize| #[trigger] edge(cfg.succs@, x, c) ==> c == x,
        0 <= k < p.len(),
    ensures
        p[k] != x,
    decreases k,
{
    if k > 0 {
        lemma_trapped(cfg, x, p, k - 1);
        assert(edge(cfg.preds@, p[k - 1], p[k - 1 + 1]));
        if p[k] == x {
            assert(edge(cfg.succs@, x, p[k - 1]));
        }
    }
}

/// Only a node with two or more successors has nodes that depend on it.
pub proof fn law_dependence_source_branches(cfg: &ControlFlowGraph, y: usize, x: usize)
    requires
        cfg.well_formed(),
        control_dependent(cfg.succs@, cfg.preds@, cfg.exit(), y, x),
    ensures
        exists|b: usize, c: usize|
            b != c && #[trigger] edge(cfg.succs@, x, b) && #[trigger] edge(cfg.succs@, x, c),
{
    let succs = cfg.succs@;
    let preds = cfg.preds@;
    let exit = cfg.exit();
    let b = choose|b: usize| #[trigger] edge(succs, x, b) && depends_via(preds, exit, y, x, b);
    if forall|c: usize| #[trigger] edge(succs, x, c) ==> c == b {
        assert(x != exit) by {
            if x == exit {
                let k = choose|k: int| 0 <= k < succs[x as int]@.len() && succs[x as int]@[k] == b;
            }
        }
        let p = choose|p: Seq<usize>| #[trigger]
            path_from_to(preds, p, exit, b) && keeps_clear(p, None);
        if b == x {
            lemma_trapped(cfg, x, p, p.len() - 1);
        } else {
            assert(edge(preds, b, x));
            lemma_path_extend(preds, p, exit, b, x);
            assert(path_from_to(preds, p.push(x), exit, x));
            assert(keeps_clear(p.push(x), None));
            assert(reaches(preds, exit, x));
            assert forall|q: Seq<usize>| #[trigger]
                path_from_to(preds, q, exit, x) implies q.contains(b) by {
                assert(q.len() >= 2);
                let k = q.len() - 2;
                assert(edge(preds, q[k], q[k + 1]));
                assert(edge(succs, x, q[k]));
                assert(q[k] == b);
            }
            assert(strictly_dominates(preds, exit, b, x));
            if y == x {
                law_strict_dominance_one_way(preds, exit, b, x);
            } else {
                law_dominance_transitive(preds, exit, y, b, x);
            }
        }
    } else {
        let c = choose|c: usize| #[trigger] edge(succs, x, c) && c != b;
        assert(edge(succs, x, b) && edge(succs, x, c) && b != c);
    }
}

/// Where `x` has an edge to `b1`, and every walk from `b2` to the exit
/// passes through `b1`, some walk from `x` to the exit keeps clear of `b2`.
proof fn lemma_first_successor_decides(cfg: &ControlFlowGraph, x: usize, b1: usize, b2: usize)
    requires
        cfg.well_formed(),
        edge(cfg.succs@, x, b1),
        strictly_dominates(cfg.preds@, cfg.exit(), b1, b2),
    ensures
        !strictly_dominates(cfg.preds@, cfg.exit(), b2, x),
{
    let preds = cfg.preds@;
    let exit = cfg.exit();
    law_strict_dominance_one_way(preds, exit, b1, b2);
    let p = choose|p: Seq<usize>| #[trigger]
        path_from_to(preds, p, exit, b2) && keeps_clear(p, None);
    assert(p.contains(b1));
    let j = choose|j: int| 0 <= j < p.len() && p[j] == b1;
    lemma_path_prefix(preds, p, j);
    assert(path_from_to(preds, p.take(j + 1), exit, b1));
    assert(keeps_clear(p.take(j + 1), None));
    assert(reaches(preds, exit, b1));
    let q = choose|q: Seq<usize>| #[trigger] path_from_to(preds, q, exit, b1) && !q.contains(b2);
    assert(edge(preds, b1, x));
    lemma_path_extend(preds, q, exit, b1, x);
    if x != b2 {
        assert(path_from_to(preds, q.push(x), exit, x));
        assert(!q.push(x).contains(b2));
    }
}

/// A node with edges to two nodes from both of which the exit can be
/// reached has a node that depends on it.
pub proof fn law_branch_is_source(cfg: &ControlFlowGraph, x: usize, b1: usize, b2: usize)
    requires
        cfg.well_formed(),
        b1 != b2,
        edge(cfg.succs@, x, b1),
        edge(cfg.succs@, x, b2),
        reaches(cfg.preds@, cfg.exit(), b1),
        reaches(cfg.preds@, cfg.exit(), b2),
    ensures
        exists|y: usize| control_dependent(cfg.succs@, cfg.preds@, cfg.exit(), y, x),
{
    let succs = cfg.succs@;
    let preds = cfg.preds@;
    let exit = cfg.exit();
    if !strictly_dominates(preds, exit, b1, x) {
        assert(depends_via(preds, exit, b1, x, b1));
        assert(control_dependent(succs, preds, exit, b1, x));
    } else if !strictly_dominates(preds, exit, b2, x) {
        assert(depends_via(preds, exit, b2, x, b2));
        assert(control_dependent(succs, preds, exit, b2, x));
    } else {
        law_dominators_comparable(preds, exit, b1, b2, x);
        if dominates(preds, exit, b1, b2) {
            lemma_first_successor_decides(cfg, x, b1, b2);
        } else {
            lemma_first_successor_decides(cfg, x, b2, b1);
        }
    }
}

/// A function in which no node has two successors has no control
/// dependence.
pub proof fn law_straight_line_no_dependence(cfg: &ControlFlowGraph, y: usize, x: usize)
    requires
        cfg.well_formed(),
        forall|a: usize, b: usize, c: usize|
            #[trigger] edge(cfg.succs@, a, b) && #[trigger] edge(cfg.succs@, a, c) ==> b == c,
    ensures
        !control_dependent(cfg.succs@, cfg.preds@, cfg.exit(), y, x),
{
    if control_dependent(cfg.succs@, cfg.preds@, cfg.exit(), y, x) {
        law_dependence_source_branches(cfg, y, x);
    }
}

/// The control-dependence graph of a function. `deps[x][y]` says whether
/// node `y` is control-dependent on node `x`.
pub struct ControlDependenceGraph {
    pub succs: Ghost<Seq<Vec<usize>>>,
    pub preds: Ghost<Seq<Vec<usize>>>,
    pub deps: Vec<Vec<bool>>,
}

impl ControlDependenceGraph {
    /// The exit node's number.
    pub open spec fn exit(&self) -> usize {
        (self.succs@.len() - 1) as usize
    }

    /// The table holds the control dependence of its graph.
    pub open spec fn well_formed(&self) -> bool {
        &&& self.succs@.len() >= 2
        &&& self.deps@.len() == self.succs@.len()
        &&& forall|x: int| 0 <= x < self.deps@.len() ==> (#[trigger] self.deps@[x])@.len() == self.succs@.len()
        &&& forall|x: usize, y: usize|
            x < self.succs@.len() && y < self.succs@.len() ==> (self.deps@[x as int]@[y as int]
                <==> control_dependent(self.succs@, self.preds@, self.exit(), y, x))
    }

    /// The graph is that of `cfg`.
    pub open spec fn is_graph_of(&self, cfg: &ControlFlowGraph) -> bool {
        &&& self.well_formed()
        &&& self.succs@ == cfg.succs@
        &&& self.preds@ == cfg.preds@
    }

    /// `node` is control-dependent on `on`, both nodes of the graph.
    pub open spec fn spec_depends(&self, node: CFGNode, on: CFGNode) -> bool {
        match (node_index(node, self.exit()), node_index(on, self.exit())) {
            (Some(y), Some(x)) => control_dependent(self.succs@, self.preds@, self.exit(), y, x),
            _ => false,
        }
    }

    /// Computes the control dependence of `cfg` from its post-dominator
    /// tree.
    pub fn new(cfg: &ControlFlowGraph, pdt: &PostDominatorTree) -> (g: ControlDependenceGraph)
        requires
            cfg.well_formed(),
            pdt.is_tree_of(cfg),
        ensures
            g.is_graph_of(cfg),
    {
        let n: usize = cfg.succs.len();
        let mut deps: Vec<Vec<bool>> = Vec::new();
        let mut x: usize = 0;
        while x < n
            invariant
                x <= n,
                n == cfg.succs@.len(),
                cfg.well_formed(),
                pdt.is_tree_of(cfg),
                deps@.len() == x,
                forall|a: int| 0 <= a < x ==> (#[trigger] deps@[a])@.len() == n,
                forall|a: usize, y: usize|
                    a < x && y < n ==> (deps@[a as int]@[y as int] <==> control_dependent(
                        cfg.succs@,
                        cfg.preds@,
                        cfg.exit(),
                        y,
                        a,
                    )),
            decreases n - x,
        {
            let row: Vec<bool> = dependents_of(cfg, pdt, x);
            deps.push(row);
            x += 1;
        }
        ControlDependenceGraph { succs: Ghost(cfg.succs@), preds: Ghost(cfg.preds@), deps }
    }

    fn index_of(&self, node: CFGNode) -> (r: Option<usize>)
        requires
            self.well_formed(),
        ensures
            r == node_index(node, self.exit()),
            r is Some ==> r.unwrap() < self.succs@.len(),
    {
        let exit: usize = self.deps.len() - 1;
        match node {
            CFGNode::Block(i) => if i < exit {
                Some(i)
            } else {
                None
            },
            CFGNode::Return => Some(exit),
        }
    }

    /// Whether `node` is control-dependent on `on`; false where one of them
    /// is no node of the graph.
    pub fn is_control_dependent(&self, node: CFGNode, on: CFGNode) -> (r: bool)
        requires
            self.well_formed(),
        ensures
            r == self.spec_depends(node, on),
    {
        match (self.index_of(node), self.index_of(on)) {
            (Some(y), Some(x)) => {
                assert(self.deps@[x as int]@.len() == self.succs@.len());
                self.deps[x][y]
            },
            _ => false,
        }
    }

    /// The nodes that are control-dependent on `on`, in rising order.
    pub fn get_control_dependents(&self, on: CFGNode) -> (r: Vec<CFGNode>)
        requires
            self.well_formed(),
        ensures
            forall|node: CFGNode| r@.contains(node) <==> self.spec_depends(node, on),
            forall|j: int, k: int|
                0 <= j < k < r@.len() ==> node_index(r@[j], self.exit()).unwrap() < node_index(
                    r@[k],
                    self.exit(),
                ).unwrap(),
    {
        self.collect(on, true)
    }

    /// The nodes that `node` is control-dependent on, in rising order.
    pub fn get_control_dependencies(&self, node: CFGNode) -> (r: Vec<CFGNode>)
        requires
            self.well_formed(),
        ensures
            forall|on: CFGNode| r@.contains(on) <==> self.spec_depends(node, on),
            forall|j: int, k: int|
                0 <= j < k < r@.len() ==> node_index(r@[j], self.exit()).unwrap() < node_index(
                    r@[k],
                    self.exit(),
                ).unwrap(),
    {
        self.collect(node, false)
    }

    /// `other` stands to `fixed` as asked for: it depends on `fixed` where
    /// `forward` holds, and `fixed` depends on it where not.
    pub open spec fn related(&self, fixed: CFGNode, other: CFGNode, forward: bool) -> bool {
        if forward {
            self.spec_depends(other, fixed)
        } else {
            self.spec_depends(fixed, other)
        }
    }

    fn collect(&self, fixed: CFGNode, forward: bool) -> (r: Vec<CFGNode>)
        requires
            self.well_formed(),
        ensures
            forall|other: CFGNode| r@.contains(other) <==> self.related(fixed, other, forward),
            forall|j: int, k: int|
                0 <= j < k < r@.len() ==> node_index(r@[j], self.exit()).unwrap() < node_index(
                    r@[k],
                    self.exit(),
                ).unwrap(),
    {
        let mut r: Vec<CFGNode> = Vec::new();
        let n: usize = self.deps.len();
        let exit: usize = n - 1;
        let f: usize = match self.index_of(fixed) {
            Some(f) => f,
            None => {
                assert forall|other: CFGNode| !self.related(fixed, other, forward) by {}
                assert forall|other: CFGNode| !r@.contains(other) by {}
                return r;
            },
        };
        let mut i: usize = 0;
        while i < n
            invariant
                i <= n,
                n == self.deps@.len(),
                exit == self.exit(),
                f < n,
                node_index(fixed, exit) == Some(f),
                self.well_formed(),
                forall|k: int|
                    0 <= k < r@.len() ==> match node_index(#[trigger] r@[k], exit) {
                        Some(o) => o < i && self.related(fixed, r@[k], forward),
                        None => false,
                    },
                forall|o: usize|
                    o < i && self.related(fixed, node_of(o, exit), forward) ==> r@.contains(
                        node_of(o, exit),
                    ),
                forall|j: int, k: int|
                    0 <= j < k < r@.len() ==> node_index(r@[j], exit).unwrap() < node_index(
                        r@[k],
                        exit,
                    ).unwrap(),
            decreases n - i,
        {
            assert(self.deps@[i as int]@.len() == n);
            assert(self.deps@[f as int]@.len() == n);
            let hit: bool = if forward {
                self.deps[f][i]
            } else {
                self.deps[i][f]
            };
            let node: CFGNode = if i < exit {
                CFGNode::Block(i)
            } else {
                CFGNode::Return
            };
            assert(node == node_of(i, exit));
            assert(node_index(node, exit) == Some(i));
            assert(hit == self.related(fixed, node, forward));
            if hit {
                let ghost before = r@;
                r.push(node);
                assert forall|o: usize|
                    o < i + 1 && self.related(fixed, node_of(o, exit), forward) implies r@.contains(
                    node_of(o, exit),
                ) by {
                    if o < i {
                        let k = choose|k: int|
                            0 <= k < before.len() && before[k] == node_of(o, exit);
                        assert(r@[k] == node_of(o, exit));
                    } else {
                        assert(r@[before.len() as int] == node);
                    }
                }
            }
            i += 1;
        }
        proof {
            assert forall|other: CFGNode| r@.contains(other) <==> self.related(
                fixed,
                other,
                forward,
            ) by {
                if self.related(fixed, other, forward) {
                    let o = node_index(other, exit).unwrap();
                    assert(node_of(o, exit) == other);
                }
                if r@.contains(other) {
                    let k = choose|k: int| 0 <= k < r@.len() && r@[k] == other;
                    assert(self.related(fixed, r@[k], forward));
                }
            }
        }
        r
    }
}

/// Some edge from `x` to one of its first `k` successors decides that `y`
/// runs.
pub open spec fn depends_via_first(cfg: &ControlFlowGraph, y: usize, x: usize, k: int) -> bool {
    exists|j: int|
        0 <= j < k && depends_via(
            cfg.preds@,
            cfg.exit(),
            y,
            x,
            #[trigger] cfg.succs@[x as int]@[j],
        )
}

/// For each node, whether it is control-dependent on `x`. From each
/// successor of `x` the way leads up the post-dominator tree, and every
/// node on it depends on `x`, until the immediate post-dominator of `x` is
/// met.
fn dependents_of(cfg: &ControlFlowGraph, pdt: &PostDominatorTree, x: usize) -> (row: Vec<bool>)
    requires
        cfg.well_formed(),
        pdt.is_tree_of(cfg),
        x < cfg.succs@.len(),
    ensures
        row@.len() == cfg.succs@.len(),
        forall|y: usize|
            y < cfg.succs@.len() ==> (row@[y as int] <==> control_dependent(
                cfg.succs@,
                cfg.preds@,
                cfg.exit(),
                y,
                x,
            )),
{
    let n: usize = cfg.succs.len();
    let ghost succs = cfg.succs@;
    let ghost preds = cfg.preds@;
    let ghost exit = cfg.exit();
    let mut row: Vec<bool> = Vec::new();
    let mut i: usize = 0;
    while i < n
        invariant
            i <= n,
            row@.len() == i,
            forall|y: int| 0 <= y < i ==> !row@[y],
        decreases n - i,
    {
        row.push(false);
        i += 1;
    }
    let list: &Vec<usize> = &cfg.succs[x];
    let mut k: usize = 0;
    while k < list.len()
        invariant
            k <= list@.len(),
            list@ == cfg.succs@[x as int]@,
            n == cfg.succs@.len(),
            succs == cfg.succs@,
            preds == cfg.preds@,
            exit == cfg.exit(),
            x < n,
            cfg.well_formed(),
            pdt.is_tree_of(cfg),
            row@.len() == n,
            forall|y: usize| y < n ==> (row@[y as int] <==> depends_via_first(cfg, y, x, k as int)),
        decreases list@.len() - k,
    {
        let b: usize = list[k];
        let ghost before = row@;
        assert(b < n);
        assert(list@.contains(b));
        assert(edge(succs, x, b));
        assert(edge(preds, b, x));
        if pdt.table.reach[b] {
            proof {
                let p = choose|p: Seq<usize>| #[trigger]
                    path_from_to(preds, p, exit, b) && keeps_clear(p, None);
                lemma_path_extend(preds, p, exit, b, x);
                assert(path_from_to(preds, p.push(x), exit, x));
                assert(keeps_clear(p.push(x), None));
                assert(reaches(preds, exit, x));
                law_exit_has_no_successor(cfg, b);
                law_idom_exists(preds, exit, x);
            }
            match pdt.table.idom[x] {
                Some(stop) => {
                    proof {
                        lemma_dominator_of_pred(preds, exit, stop, b, x);
                    }
                    pdt.table.mark_up_to(&mut row, b, stop);
                    proof {
                        assert forall|y: usize| y < n implies (row@[y as int] <==> before[y as int]
                            || depends_via(preds, exit, y, x, b)) by {
                            law_dominators_through_idom(preds, exit, stop, x, y);
                            assert(row@[y as int] <==> before[y as int] || (dominates(
                                preds,
                                exit,
                                y,
                                b,
                            ) && !dominates(preds, exit, y, stop)));
                            assert(strictly_dominates(preds, exit, y, x) <==> dominates(
                                preds,
                                exit,
                                y,
                                stop,
                            ));
                        }
                    }
                },
                None => {},
            }
        }
        proof {
            assert forall|y: usize| y < n implies (row@[y as int] <==> depends_via_first(
                cfg,
                y,
                x,
                k + 1,
            )) by {
                assert(before[y as int] <==> depends_via_first(cfg, y, x, k as int));
                if depends_via_first(cfg, y, x, k as int) {
                    let j = choose|j: int|
                        0 <= j < k && depends_via(preds, exit, y, x, #[trigger] succs[x as int]@[j]);
                    assert(0 <= j < k + 1);
                }
                if depends_via(preds, exit, y, x, b) {
                    assert(depends_via(preds, exit, y, x, succs[x as int]@[k as int]));
                }
                if depends_via_first(cfg, y, x, k + 1) {
                    let j = choose|j: int|
                        0 <= j < k + 1 && depends_via(
                            preds,
                            exit,
                            y,
                            x,
                            #[trigger] succs[x as int]@[j],
                        );
                    if j < k {
                        assert(depends_via_first(cfg, y, x, k as int));
                    }
                }
            }
        }
        k += 1;
    }
    proof {
        assert forall|y: usize| y < n implies (row@[y as int] <==> control_dependent(
            succs,
            preds,
            exit,
            y,
            x,
        )) by {
            if control_dependent(succs, preds, exit, y, x) {
                let b = choose|b: usize| #[trigger]
                    edge(succs, x, b) && depends_via(preds, exit, y, x, b);
                let j = choose|j: int| 0 <= j < list@.len() && list@[j] == b;
                assert(depends_via(preds, exit, y, x, succs[x as int]@[j]));
            }
            if depends_via_first(cfg, y, x, k as int) {
                let j = choose|j: int|
                    0 <= j < k && depends_via(preds, exit, y, x, #[trigger] succs[x as int]@[j]);
                assert(list@.contains(list@[j]));
                assert(edge(succs, x, list@[j]));
            }
        }
    }
    row
}

} // verus!
