//! The control-flow graph of one function: its blocks, one exit node that
//! every returning block leads to, and the edges that the terminators give.
use vstd::prelude::*;
use crate::graph::{adj_wf, contains, edge};
use crate::ir::{Function, Terminator};

verus! {

/// A node of a control-flow graph: a block, by its position in the
/// function, or the one exit node.
#[derive(Clone, Copy, Debug, PartialEq, Eq, Structural)]
pub enum CFGNode {
    Block(usize),
    Return,
}

proof fn lemma_push_contains(s: Seq<usize>, x: usize)
    ensures
        forall|y: usize| s.push(x).contains(y) <==> (s.contains(y) || y == x),
        s.no_duplicates() && !s.contains(x) ==> s.push(x).no_duplicates(),
{
    let t = s.push(x);
    assert forall|y: usize| t.contains(y) <==> (s.contains(y) || y == x) by {
        if t.contains(y) {
            let j = choose|j: int| 0 <= j < t.len() && t[j] == y;
            if j < s.len() {
                assert(s[j] == y);
            }
        }
        if s.contains(y) {
            let j = choose|j: int| 0 <= j < s.len() && s[j] == y;
            assert(t[j] == y);
        }
        if y == x {
            assert(t[s.len() as int] == y);
        }
    }
    if s.no_duplicates() && !s.contains(x) {
        assert forall|i: int, j: int| 0 <= i < t.len() && 0 <= j < t.len() && i != j implies t[i]
            != t[j] by {
            if i < s.len() && j < s.len() {
                assert(s[i] != s[j]);
            } else if i < s.len() {
                assert(s.contains(s[i]));
            } else {
                assert(s.contains(s[j]));
            }
        }
    }
}

/// The elements of `s` in their order, each at its first place only.
pub open spec fn each_once(s: Seq<usize>) -> Seq<usize>
    decreases s.len(),
{
    if s.len() == 0 {
        Seq::<usize>::empty()
    } else {
        let d = each_once(s.drop_last());
        if d.contains(s.last()) {
            d
        } else {
            d.push(s.last())
        }
    }
}

/// Adds `x` to `v` unless it is there.
fn push_unique(v: &mut Vec<usize>, x: usize)
    requires
        old(v)@.no_duplicates(),
    ensures
        final(v)@.no_duplicates(),
        forall|y: usize| final(v)@.contains(y) <==> (old(v)@.contains(y) || y == x),
        final(v)@ == if old(v)@.contains(x) {
            old(v)@
        } else {
            old(v)@.push(x)
        },
{
    if !contains(v, x) {
        proof {
            lemma_push_contains(v@, x);
        }
        v.push(x);
    }
}

/// The elements of `ts`, and then `extra` if there is one, each once.
fn unique_targets(ts: &Vec<usize>, extra: Option<usize>) -> (r: Vec<usize>)
    ensures
        r@.no_duplicates(),
        forall|y: usize| r@.contains(y) <==> (ts@.contains(y) || extra == Some(y)),
        r@ == match extra {
            Some(x) => each_once(ts@.push(x)),
            None => each_once(ts@),
        },
{
    let mut r: Vec<usize> = Vec::new();
    let mut i: usize = 0;
    while i < ts.len()
        invariant
            i <= ts.len(),
            r@.no_duplicates(),
            forall|y: usize| r@.contains(y) <==> ts@.take(i as int).contains(y),
            r@ == each_once(ts@.take(i as int)),
        decreases ts.len() - i,
    {
        proof {
            assert(ts@.take(i + 1) =~= ts@.take(i as int).push(ts@[i as int]));
            assert(ts@.take(i + 1).drop_last() =~= ts@.take(i as int));
            lemma_push_contains(ts@.take(i as int), ts@[i as int]);
        }
        push_unique(&mut r, ts[i]);
        i += 1;
    }
    assert(ts@.take(i as int) =~= ts@);
    match extra {
        Some(x) => {
            assert(ts@.push(x).drop_last() =~= ts@);
            push_unique(&mut r, x);
        },
        None => {},
    }
    r
}

/// The nodes that a terminator leads to, each once, in the terminator's
/// order.
fn successors_of(term: &Terminator, exit: usize) -> (r: Vec<usize>)
    ensures
        r@.no_duplicates(),
        forall|y: usize| r@.contains(y) <==> term.goes_to(exit, y),
        r@ == each_once(term.targets(exit)),
{
    let empty: Vec<usize> = Vec::new();
    match term {
        Terminator::Br(t) => {
            assert(empty@.push(*t) =~= seq![*t]);
            unique_targets(&empty, Some(*t))
        },
        Terminator::CondBr(t, f) => {
            assert(empty@.push(*t) =~= seq![*t]);
            assert(seq![*t, *f].drop_last() =~= seq![*t]);
            let mut r: Vec<usize> = unique_targets(&empty, Some(*t));
            push_unique(&mut r, *f);
            r
        },
        Terminator::Switch(ts, d) => unique_targets(ts, Some(*d)),
        Terminator::IndirectBr(ts) => unique_targets(ts, None),
        Terminator::Ret => {
            assert(empty@.push(exit) =~= seq![exit]);
            unique_targets(&empty, Some(exit))
        },
        Terminator::Unreachable => {
            assert(empty@.push(exit) =~= seq![exit]);
            unique_targets(&empty, Some(exit))
        },
    }
}

/// The control-flow graph of a function. Node `i` is block `i`; the node
/// after the last block is the exit.
pub struct ControlFlowGraph {
    pub succs: Vec<Vec<usize>>,
    pub preds: Vec<Vec<usize>>,
}

impl ControlFlowGraph {
    /// The exit node's number, which is the number of blocks.
    pub open spec fn exit(&self) -> usize {
        (self.succs@.len() - 1) as usize
    }

    /// There is an edge from node `a` to node `b`.
    pub open spec fn has_edge(&self, a: usize, b: usize) -> bool {
        edge(self.succs@, a, b)
    }

    /// The two adjacency tables describe one graph, with an entry and an
    /// exit, and name no edge twice.
    pub open spec fn well_formed(&self) -> bool {
        &&& self.succs@.len() >= 2
        &&& self.preds@.len() == self.succs@.len()
        &&& adj_wf(self.succs@)
        &&& adj_wf(self.preds@)
        &&& self.succs@[self.exit() as int]@.len() == 0
        &&& forall|i: int| 0 <= i < self.succs@.len() ==> (#[trigger] self.succs@[i])@.no_duplicates()
        &&& forall|i: int| 0 <= i < self.preds@.len() ==> (#[trigger] self.preds@[i])@.no_duplicates()
        &&& forall|a: usize, b: usize| edge(self.preds@, b, a) <==> edge(self.succs@, a, b)
        &&& forall|i: int, j: int, k: int|
            0 <= i < self.preds@.len() && 0 <= j < k < self.preds@[i]@.len() ==> (
            #[trigger] self.preds@[i]@[j]) < (#[trigger] self.preds@[i]@[k])
    }

    /// The graph is that of the function `f`: one node for each block and
    /// one for the exit, and the edges that the terminators give.
    pub open spec fn is_graph_of(&self, f: Function) -> bool {
        &&& self.well_formed()
        &&& self.exit() == f.blocks@.len()
        &&& forall|a: usize, b: usize|
            self.has_edge(a, b) <==> (a < f.blocks@.len() && f.blocks@[a as int].term.goes_to(
                self.exit(),
                b,
            ))
        &&& forall|a: int|
            0 <= a < f.blocks@.len() ==> (#[trigger] self.succs@[a])@ == each_once(
                f.blocks@[a].term.targets(self.exit()),
            )
    }

    /// The number of a node, if it is a node of this graph.
    pub open spec fn spec_index(&self, node: CFGNode) -> Option<usize> {
        match node {
            CFGNode::Block(i) => if i < self.exit() {
                Some(i)
            } else {
                None
            },
            CFGNode::Return => Some(self.exit()),
        }
    }

    /// The node of a number.
    pub open spec fn spec_node(&self, i: usize) -> CFGNode {
        if i < self.exit() {
            CFGNode::Block(i)
        } else {
            CFGNode::Return
        }
    }

    /// Builds the graph of `f`: an edge from each block to every block that
    /// its terminator names, and to the exit where it returns or cannot go
    /// on.
    pub fn new(f: &Function) -> (g: ControlFlowGraph)
        requires
            f.well_formed(),
        ensures
            g.is_graph_of(*f),
    {
        let n: usize = f.blocks.len();
        let mut succs: Vec<Vec<usize>> = Vec::new();
        let mut i: usize = 0;
        while i < n
            invariant
                i <= n,
                n == f.blocks@.len(),
                f.well_formed(),
                succs@.len() == i,
                forall|a: int| 0 <= a < i ==> (#[trigger] succs@[a])@.no_duplicates(),
                forall|a: int, y: usize|
                    0 <= a < i ==> ((#[trigger] succs@[a]@.contains(y))
                        <==> f.blocks@[a].term.goes_to(n, y)),
                forall|a: int|
                    0 <= a < i ==> (#[trigger] succs@[a])@ == each_once(
                        f.blocks@[a].term.targets(n),
                    ),
            decreases n - i,
        {
            let t: Vec<usize> = successors_of(&f.blocks[i].term, n);
            succs.push(t);
            i += 1;
        }
        succs.push(Vec::new());
        proof {
            assert forall|a: int, k: int|
                0 <= a < succs@.len() && 0 <= k < succs@[a]@.len() implies (#[trigger] succs@[a]@[k])
                < succs@.len() by {
                let y = succs@[a]@[k];
                assert(succs@[a]@.contains(y));
                assert(f.blocks@[a].term.goes_to(n, y));
                assert(f.blocks@[a].term.targets_below(n));
                match f.blocks@[a].term {
                    Terminator::Switch(ts, d) => {
                        if ts@.contains(y) {
                            let j = choose|j: int| 0 <= j < ts@.len() && ts@[j] == y;
                            assert(ts@[j] < n);
                        }
                    },
                    Terminator::IndirectBr(ts) => {
                        let j = choose|j: int| 0 <= j < ts@.len() && ts@[j] == y;
                        assert(ts@[j] < n);
                    },
                    _ => {},
                }
            }
        }
        let preds: Vec<Vec<usize>> = reversed(&succs);
        let g = ControlFlowGraph { succs, preds };
        proof {
            assert forall|a: usize, b: usize|
                g.has_edge(a, b) <==> (a < f.blocks@.len() && f.blocks@[a as int].term.goes_to(
                    g.exit(),
                    b,
                )) by {
                if a < n && f.blocks@[a as int].term.goes_to(n, b) {
                    assert(g.succs@[a as int]@.contains(b));
                    let k = choose|k: int|
                        0 <= k < g.succs@[a as int]@.len() && g.succs@[a as int]@[k] == b;
                    assert(g.succs@[a as int]@[k] < g.succs@.len());
                }
                if g.has_edge(a, b) {
                    if a == n {
                        let k = choose|k: int|
                            0 <= k < g.succs@[a as int]@.len() && g.succs@[a as int]@[k] == b;
                    }
                }
            }
        }
        g
    }

    /// The number of nodes, the exit among them.
    pub fn num_nodes(&self) -> (r: usize)
        ensures
            r == self.succs@.len(),
    {
        self.succs.len()
    }

    /// The entry: the function's first block.
    pub fn entry(&self) -> (r: CFGNode)
        ensures
            r == CFGNode::Block(0),
    {
        CFGNode::Block(0)
    }

    /// The number of `node`, if it is a node of this graph.
    pub fn index_of(&self, node: CFGNode) -> (r: Option<usize>)
        requires
            self.well_formed(),
        ensures
            r == self.spec_index(node),
            r is Some ==> r.unwrap() < self.succs@.len(),
    {
        let exit: usize = self.succs.len() - 1;
        match node {
            CFGNode::Block(i) => if i < exit {
                Some(i)
            } else {
                None
            },
            CFGNode::Return => Some(exit),
        }
    }

    /// The node whose number is `i`.
    pub fn node_at(&self, i: usize) -> (r: CFGNode)
        requires
            self.well_formed(),
        ensures
            r == self.spec_node(i),
    {
        if i < self.succs.len() - 1 {
            CFGNode::Block(i)
        } else {
            CFGNode::Return
        }
    }

    fn nodes_of(&self, list: &Vec<usize>) -> (r: Vec<CFGNode>)
        requires
            self.well_formed(),
        ensures
            r@.len() == list@.len(),
            forall|k: int| 0 <= k < list@.len() ==> r@[k] == self.spec_node(list@[k]),
    {
        let mut r: Vec<CFGNode> = Vec::new();
        let mut k: usize = 0;
        while k < list.len()
            invariant
                self.well_formed(),
                k <= list.len(),
                r@.len() == k,
                forall|j: int| 0 <= j < k ==> r@[j] == self.spec_node(list@[j]),
            decreases list.len() - k,
        {
            r.push(self.node_at(list[k]));
            k += 1;
        }
        r
    }

    /// The nodes that `node` has an edge to, each once; none for a node
    /// that is not of this graph.
    pub fn succs(&self, node: CFGNode) -> (r: Vec<CFGNode>)
        requires
            self.well_formed(),
        ensures
            match self.spec_index(node) {
                Some(i) => r@.len() == self.succs@[i as int]@.len() && forall|k: int|
                    0 <= k < r@.len() ==> r@[k] == self.spec_node(self.succs@[i as int]@[k]),
                None => r@.len() == 0,
            },
    {
        match self.index_of(node) {
            Some(i) => self.nodes_of(&self.succs[i]),
            None => Vec::new(),
        }
    }

    /// The nodes that have an edge to `node`, each once, in rising order;
    /// none for a node that is not of this graph.
    pub fn preds(&self, node: CFGNode) -> (r: Vec<CFGNode>)
        requires
            self.well_formed(),
        ensures
            match self.spec_index(node) {
                Some(i) => r@.len() == self.preds@[i as int]@.len() && forall|k: int|
                    0 <= k < r@.len() ==> r@[k] == self.spec_node(self.preds@[i as int]@[k]),
                None => r@.len() == 0,
            },
    {
        match self.index_of(node) {
            Some(i) => self.nodes_of(&self.preds[i]),
            None => Vec::new(),
        }
    }
}

/// The exit node has no successor.
pub proof fn law_exit_has_no_successor(cfg: &ControlFlowGraph, b: usize)
    requires
        cfg.well_formed(),
    ensures
        !cfg.has_edge(cfg.exit(), b),
{
    if cfg.has_edge(cfg.exit(), b) {
        let list = cfg.succs@[cfg.exit() as int]@;
        let k = choose|k: int| 0 <= k < list.len() && list[k] == b;
    }
}

/// Where no block after the first names the first, the entry has no
/// predecessor but, at most, itself.
pub proof fn law_entry_has_no_other_predecessor(cfg: &ControlFlowGraph, f: Function, a: usize)
    requires
        cfg.is_graph_of(f),
        forall|i: int|
            0 < i < f.blocks@.len() ==> !(#[trigger] f.blocks@[i]).term.goes_to(cfg.exit(), 0),
        cfg.has_edge(a, 0),
    ensures
        a == 0,
{
    if a != 0 {
        assert(!f.blocks@[a as int].term.goes_to(cfg.exit(), 0));
    }
}

/// The graph with every edge turned round.
fn reversed(adj: &Vec<Vec<usize>>) -> (rev: Vec<Vec<usize>>)
    requires
        adj_wf(adj@),
    ensures
        rev@.len() == adj@.len(),
        adj_wf(rev@),
        forall|i: int| 0 <= i < rev@.len() ==> (#[trigger] rev@[i])@.no_duplicates(),
        forall|a: usize, b: usize| edge(rev@, b, a) <==> edge(adj@, a, b),
        forall|i: int, x: int, y: int|
            0 <= i < rev@.len() && 0 <= x < y < rev@[i]@.len() ==> (#[trigger] rev@[i]@[x]) < (
            #[trigger] rev@[i]@[y]),
{
    let n: usize = adj.len();
    let mut rev: Vec<Vec<usize>> = Vec::new();
    let mut j: usize = 0;
    while j < n
        invariant
            j <= n,
            n == adj@.len(),
            rev@.len() == j,
            forall|i: int| 0 <= i < j ==> (#[trigger] rev@[i])@.no_duplicates(),
            forall|i: int, a: usize|
                0 <= i < j ==> ((#[trigger] rev@[i]@.contains(a)) <==> (a < n && adj@[a as int]@.contains(
                    i as usize,
                ))),
            forall|i: int, x: int, y: int|
                0 <= i < j && 0 <= x < y < rev@[i]@.len() ==> (#[trigger] rev@[i]@[x]) < (
                #[trigger] rev@[i]@[y]),
        decreases n - j,
    {
        let mut list: Vec<usize> = Vec::new();
        let mut a: usize = 0;
        while a < n
            invariant
                a <= n,
                j < n,
                n == adj@.len(),
                list@.no_duplicates(),
                forall|y: usize|
                    list@.contains(y) <==> (y < a && adj@[y as int]@.contains(j)),
                forall|x: int| 0 <= x < list@.len() ==> (#[trigger] list@[x]) < a,
                forall|x: int, y: int|
                    0 <= x < y < list@.len() ==> (#[trigger] list@[x]) < (#[trigger] list@[y]),
            decreases n - a,
        {
            let ghost before = list@;
            if contains(&adj[a], j) {
                proof {
                    lemma_push_contains(list@, a);
                }
                list.push(a);
            }
            assert forall|y: usize|
                list@.contains(y) <==> (y < a + 1 && adj@[y as int]@.contains(j)) by {
                assert(before.contains(y) <==> (y < a && adj@[y as int]@.contains(j)));
            }
            a += 1;
        }
        rev.push(list);
        j += 1;
    }
    proof {
        assert forall|i: int, k: int|
            0 <= i < rev@.len() && 0 <= k < rev@[i]@.len() implies (#[trigger] rev@[i]@[k]) < rev@.len() by {
            assert(rev@[i]@.contains(rev@[i]@[k]));
        }
        assert forall|a: usize, b: usize| edge(rev@, b, a) <==> edge(adj@, a, b) by {
            if edge(adj@, a, b) {
                assert(rev@[b as int]@.contains(a));
            }
            if edge(rev@, b, a) {
                assert(rev@[b as int]@.contains(a));
            }
        }
    }
    rev
}

} // verus!
