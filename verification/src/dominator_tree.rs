//! The dominator tree of a control-flow graph, rooted at the entry, and its
//! post-dominator tree: the same on the graph turned round, rooted at the
//! exit.
use vstd::prelude::*;
use crate::control_flow_graph::{CFGNode, ControlFlowGraph};
use crate::dominance::{
    dominates, is_idom, law_idom_absent, law_idom_exists, strictly_dominates, DomTable,
};
use crate::graph::{keeps_clear, lemma_reverse_path, path_from_to, reaches};

verus! {

/// The number of `node` in a graph whose exit has the number `exit`, if it
/// is a node of that graph.
pub open spec fn node_index(node: CFGNode, exit: usize) -> Option<usize> {
    match node {
        CFGNode::Block(i) => if i < exit {
            Some(i)
        } else {
            None
        },
        CFGNode::Return => Some(exit),
    }
}

/// The node with the number `i` in a graph whose exit has the number
/// `exit`.
pub open spec fn node_of(i: usize, exit: usize) -> CFGNode {
    if i < exit {
        CFGNode::Block(i)
    } else {
        CFGNode::Return
    }
}

impl DomTable {
    /// The number of the exit node of the graph that the table is of.
    pub open spec fn exit(&self) -> usize {
        (self.adj@.len() - 1) as usize
    }

    /// `a` and `b` are nodes of the graph, and `a` dominates `b`.
    pub open spec fn node_dominates(&self, a: CFGNode, b: CFGNode) -> bool {
        match (node_index(a, self.exit()), node_index(b, self.exit())) {
            (Some(i), Some(j)) => dominates(self.adj@, self.root, i, j),
            _ => false,
        }
    }

    /// `node` is a node of the graph that the root has a walk to.
    pub open spec fn node_reached(&self, node: CFGNode) -> bool {
        match node_index(node, self.exit()) {
            Some(i) => reaches(self.adj@, self.root, i),
            None => false,
        }
    }

    /// `parent` is the immediate dominator of `node`.
    pub open spec fn node_is_idom(&self, parent: CFGNode, node: CFGNode) -> bool {
        match (node_index(parent, self.exit()), node_index(node, self.exit())) {
            (Some(i), Some(j)) => is_idom(self.adj@, self.root, i, j),
            _ => false,
        }
    }

    fn index_of(&self, node: CFGNode) -> (r: Option<usize>)
        requires
            self.well_formed(),
        ensures
            r == node_index(node, self.exit()),
            r is Some ==> r.unwrap() < self.adj@.len(),
    {
        let exit: usize = self.reach.len() - 1;
        match node {
            CFGNode::Block(i) => if i < exit {
                Some(i)
            } else {
                None
            },
            CFGNode::Return => Some(exit),
        }
    }

    /// Whether `a` dominates `b`; false where one of them is no node of the
    /// graph.
    pub fn lookup_dominates(&self, a: CFGNode, b: CFGNode) -> (r: bool)
        requires
            self.well_formed(),
        ensures
            r == self.node_dominates(a, b),
    {
        match (self.index_of(a), self.index_of(b)) {
            (Some(i), Some(j)) => self.walk_dominates(i, j),
            _ => false,
        }
    }

    /// Whether the root has a walk to `node`.
    pub fn lookup_reached(&self, node: CFGNode) -> (r: bool)
        requires
            self.well_formed(),
        ensures
            r == self.node_reached(node),
    {
        match self.index_of(node) {
            Some(i) => self.reach[i],
            None => false,
        }
    }

    /// The immediate dominator of `node`, and `None` where it has none: for
    /// the root, for a node that the root has no walk to, and for what is
    /// no node of the graph.
    pub fn lookup_immediate(&self, node: CFGNode) -> (r: Option<CFGNode>)
        requires
            self.well_formed(),
        ensures
            match r {
                Some(parent) => self.node_is_idom(parent, node),
                None => forall|parent: CFGNode| !self.node_is_idom(parent, node),
            },
            r is Some <==> self.node_reached(node) && node_index(node, self.exit()) != Some(
                self.root,
            ),
    {
        match self.index_of(node) {
            Some(j) => {
                proof {
                    if j != self.root && reaches(self.adj@, self.root, j) {
                        law_idom_exists(self.adj@, self.root, j);
                    } else {
                        assert forall|a: usize| !is_idom(self.adj@, self.root, a, j) by {
                            law_idom_absent(self.adj@, self.root, a, j);
                        }
                    }
                }
                match self.idom[j] {
                    Some(i) => {
                        let exit: usize = self.reach.len() - 1;
                        if i < exit {
                            Some(CFGNode::Block(i))
                        } else {
                            Some(CFGNode::Return)
                        }
                    },
                    None => None,
                }
            },
            None => None,
        }
    }
}

/// The dominator tree of a function's control-flow graph.
pub struct DominatorTree {
    pub table: DomTable,
}

impl DominatorTree {
    /// The tree is that of the graph `cfg`, rooted at its entry.
    pub open spec fn is_tree_of(&self, cfg: &ControlFlowGraph) -> bool {
        &&& self.table.well_formed()
        &&& self.table.adj@ == cfg.succs@
        &&& self.table.root == 0
    }

    /// The tree is that of some graph that has an entry and an exit.
    pub open spec fn well_formed(&self) -> bool {
        self.table.well_formed() && self.table.root == 0 && self.table.adj@.len() >= 2
    }

    /// Computes the dominator tree of `cfg`.
    pub fn new(cfg: &ControlFlowGraph) -> (t: DominatorTree)
        requires
            cfg.well_formed(),
        ensures
            t.is_tree_of(cfg),
            t.well_formed(),
    {
        DominatorTree { table: DomTable::compute(&cfg.succs, &cfg.preds, 0) }
    }

    /// The immediate dominator of `node`; `None` for the entry and for a
    /// node that cannot be reached from it.
    pub fn idom(&self, node: CFGNode) -> (r: Option<CFGNode>)
        requires
            self.well_formed(),
        ensures
            match r {
                Some(parent) => self.table.node_is_idom(parent, node),
                None => forall|parent: CFGNode| !self.table.node_is_idom(parent, node),
            },
            r is Some <==> self.table.node_reached(node) && node != CFGNode::Block(0),
    {
        assert(self.table.exit() == self.table.reach.len() - 1);
        self.table.lookup_immediate(node)
    }

    /// Whether `a` dominates `b`: `a` is `b`, or `b` can be reached from
    /// the entry and every walk from the entry to it passes through `a`.
    pub fn dominates(&self, a: CFGNode, b: CFGNode) -> (r: bool)
        requires
            self.well_formed(),
        ensures
            r == self.table.node_dominates(a, b),
    {
        self.table.lookup_dominates(a, b)
    }

    /// Whether `node` can be reached from the entry. A node that cannot is
    /// no part of the tree.
    pub fn is_reachable(&self, node: CFGNode) -> (r: bool)
        requires
            self.well_formed(),
        ensures
            r == self.table.node_reached(node),
    {
        self.table.lookup_reached(node)
    }
}

/// Post-dominance is dominance with every edge turned round: `x`
/// post-dominates another node `a` where `a` has a walk to the exit and
/// every such walk passes through `x`.
pub proof fn law_postdominance_mirrors(cfg: &ControlFlowGraph, x: usize, a: usize)
    requires
        cfg.well_formed(),
    ensures
        strictly_dominates(cfg.preds@, cfg.exit(), x, a) <==> {
            &&& x != a
            &&& exists|p: Seq<usize>| #[trigger] path_from_to(cfg.succs@, p, a, cfg.exit())
            &&& forall|p: Seq<usize>| #[trigger]
                path_from_to(cfg.succs@, p, a, cfg.exit()) ==> p.contains(x)
        },
{
    let succs = cfg.succs@;
    let preds = cfg.preds@;
    let exit = cfg.exit();
    if strictly_dominates(preds, exit, x, a) {
        let q = choose|q: Seq<usize>| #[trigger]
            path_from_to(preds, q, exit, a) && keeps_clear(q, None);
        lemma_reverse_path(preds, succs, q, exit, a);
        assert(path_from_to(succs, q.reverse(), a, exit));
        assert forall|p: Seq<usize>| #[trigger] path_from_to(succs, p, a, exit) implies p.contains(
            x,
        ) by {
            lemma_reverse_path(succs, preds, p, a, exit);
            assert(path_from_to(preds, p.reverse(), exit, a));
            assert(p.reverse().contains(x));
        }
    }
    if x != a && (exists|p: Seq<usize>| #[trigger] path_from_to(succs, p, a, exit)) && (forall|
        p: Seq<usize>,
    | #[trigger] path_from_to(succs, p, a, exit) ==> p.contains(x)) {
        let p = choose|p: Seq<usize>| #[trigger] path_from_to(succs, p, a, exit);
        lemma_reverse_path(succs, preds, p, a, exit);
        assert(path_from_to(preds, p.reverse(), exit, a));
        assert(keeps_clear(p.reverse(), None));
        assert forall|q: Seq<usize>| #[trigger] path_from_to(preds, q, exit, a) implies q.contains(
            x,
        ) by {
            lemma_reverse_path(preds, succs, q, exit, a);
            assert(path_from_to(succs, q.reverse(), a, exit));
            assert(q.reverse().contains(x));
        }
    }
}

/// A node from which no walk leads to the exit has no post-dominator but
/// itself, and no immediate one.
pub proof fn law_no_exit_no_postdominator(cfg: &ControlFlowGraph, x: usize, a: usize)
    requires
        cfg.well_formed(),
        forall|p: Seq<usize>| !path_from_to(cfg.succs@, p, a, cfg.exit()),
    ensures
        !strictly_dominates(cfg.preds@, cfg.exit(), x, a),
        !is_idom(cfg.preds@, cfg.exit(), x, a),
{
    law_postdominance_mirrors(cfg, x, a);
}

/// The post-dominator tree of a function's control-flow graph.
pub struct PostDominatorTree {
    pub table: DomTable,
}

impl PostDominatorTree {
    /// The tree is that of the graph `cfg` turned round, rooted at its
    /// exit.
    pub open spec fn is_tree_of(&self, cfg: &ControlFlowGraph) -> bool {
        &&& self.table.well_formed()
        &&& self.table.adj@ == cfg.preds@
        &&& self.table.root == cfg.exit()
    }

    /// The tree is that of some graph, rooted at its exit.
    pub open spec fn well_formed(&self) -> bool {
        self.table.well_formed() && self.table.root == self.table.exit()
    }

    /// Computes the post-dominator tree of `cfg`.
    pub fn new(cfg: &ControlFlowGraph) -> (t: PostDominatorTree)
        requires
            cfg.well_formed(),
        ensures
            t.is_tree_of(cfg),
            t.well_formed(),
    {
        let exit: usize = cfg.preds.len() - 1;
        PostDominatorTree { table: DomTable::compute(&cfg.preds, &cfg.succs, exit) }
    }

    /// The immediate post-dominator of `node`; `None` for the exit and for
    /// a node from which the exit cannot be reached.
    pub fn ipostdom(&self, node: CFGNode) -> (r: Option<CFGNode>)
        requires
            self.well_formed(),
        ensures
            match r {
                Some(parent) => self.table.node_is_idom(parent, node),
                None => forall|parent: CFGNode| !self.table.node_is_idom(parent, node),
            },
            r is Some <==> self.table.node_reached(node) && node != CFGNode::Return,
    {
        self.table.lookup_immediate(node)
    }

    /// Whether `a` post-dominates `b`: `a` is `b`, or the exit can be
    /// reached from `b` and every walk from `b` to it passes through `a`.
    pub fn postdominates(&self, a: CFGNode, b: CFGNode) -> (r: bool)
        requires
            self.well_formed(),
        ensures
            r == self.table.node_dominates(a, b),
    {
        self.table.lookup_dominates(a, b)
    }

    /// Whether the exit can be reached from `node`. A node from which it
    /// cannot, as in a loop without end, is no part of the tree.
    pub fn reaches_exit(&self, node: CFGNode) -> (r: bool)
        requires
            self.well_formed(),
        ensures
            r == self.table.node_reached(node),
    {
        self.table.lookup_reached(node)
    }
}

} // verus!
