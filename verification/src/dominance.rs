//! Dominance in a rooted graph: which nodes lie on every walk from the root
//! to a node, and which of them is the nearest.
use vstd::prelude::*;
use crate::graph::{
    adj_wf, edge, is_path, keeps_clear, lemma_last_occurrence, lemma_path_extend,
    lemma_path_in_range, lemma_path_join, lemma_path_prefix, lemma_path_suffix, path_from_to,
    reach_avoiding, reaches,
};

verus! {

/// `b` can be reached from the root, `a` is another node, and every walk
/// from the root to `b` passes through `a`.
pub open spec fn strictly_dominates(adj: Seq<Vec<usize>>, root: usize, a: usize, b: usize) -> bool {
    &&& a != b
    &&& reaches(adj, root, b)
    &&& forall|p: Seq<usize>| #[trigger] path_from_to(adj, p, root, b) ==> p.contains(a)
}

/// `a` is `b`, or strictly dominates it.
pub open spec fn dominates(adj: Seq<Vec<usize>>, root: usize, a: usize, b: usize) -> bool {
    a == b || strictly_dominates(adj, root, a, b)
}

/// `a` strictly dominates `b`, and every other strict dominator of `b`
/// dominates `a`.
pub open spec fn is_idom(adj: Seq<Vec<usize>>, root: usize, a: usize, b: usize) -> bool {
    &&& strictly_dominates(adj, root, a, b)
    &&& forall|c: usize| #[trigger]
        strictly_dominates(adj, root, c, b) ==> dominates(adj, root, c, a)
}

/// A strict dominator is a node of the graph, and so is what it dominates.
pub proof fn lemma_dominator_in_range(adj: Seq<Vec<usize>>, root: usize, a: usize, b: usize)
    requires
        strictly_dominates(adj, root, a, b),
    ensures
        a < adj.len(),
        b < adj.len(),
{
    let p = choose|p: Seq<usize>| #[trigger] path_from_to(adj, p, root, b) && keeps_clear(p, None);
    assert(p.contains(a));
    let j = choose|j: int| 0 <= j < p.len() && p[j] == a;
    lemma_path_in_range(adj, p, j);
    lemma_path_in_range(adj, p, p.len() - 1);
}

/// Every node dominates itself.
pub proof fn law_dominance_reflexive(adj: Seq<Vec<usize>>, root: usize, a: usize)
    ensures
        dominates(adj, root, a, a),
{
}

/// If `a` dominates `b` and `b` dominates `c`, then `a` dominates `c`.
pub proof fn law_dominance_transitive(
    adj: Seq<Vec<usize>>,
    root: usize,
    a: usize,
    b: usize,
    c: usize,
)
    requires
        dominates(adj, root, a, b),
        dominates(adj, root, b, c),
    ensures
        dominates(adj, root, a, c),
{
    if a != b && b != c && a != c {
        assert forall|p: Seq<usize>| #[trigger] path_from_to(adj, p, root, c) implies p.contains(
            a,
        ) by {
            assert(p.contains(b));
            let j = choose|j: int| 0 <= j < p.len() && p[j] == b;
            lemma_path_prefix(adj, p, j);
            assert(path_from_to(adj, p.take(j + 1), root, b));
            assert(p.take(j + 1).contains(a));
        }
    }
}

/// A node that a walk from the root ends in does not strictly dominate any
/// of its own strict dominators.
proof fn lemma_no_mutual(adj: Seq<Vec<usize>>, root: usize, a: usize, b: usize, p: Seq<usize>)
    requires
        strictly_dominates(adj, root, a, b),
        path_from_to(adj, p, root, b),
    ensures
        !strictly_dominates(adj, root, b, a),
    decreases p.len(),
{
    if strictly_dominates(adj, root, b, a) {
        assert(p.contains(a));
        let j = choose|j: int| 0 <= j < p.len() && p[j] == a;
        lemma_path_prefix(adj, p, j);
        let q = p.take(j + 1);
        assert(path_from_to(adj, q, root, a));
        assert(q.contains(b));
        let i = choose|i: int| 0 <= i < q.len() && q[i] == b;
        lemma_path_prefix(adj, q, i);
        lemma_no_mutual(adj, root, a, b, q.take(i + 1));
    }
}

/// Strict dominance runs one way only: of two nodes, at most one strictly
/// dominates the other, so a chain of strict dominators never returns to a
/// node.
pub proof fn law_strict_dominance_one_way(adj: Seq<Vec<usize>>, root: usize, a: usize, b: usize)
    requires
        strictly_dominates(adj, root, a, b),
    ensures
        !strictly_dominates(adj, root, b, a),
{
    let p = choose|p: Seq<usize>| #[trigger] path_from_to(adj, p, root, b) && keeps_clear(p, None);
    lemma_no_mutual(adj, root, a, b, p);
}

/// A node has at most one immediate dominator.
pub proof fn law_idom_unique(adj: Seq<Vec<usize>>, root: usize, a: usize, c: usize, b: usize)
    requires
        is_idom(adj, root, a, b),
        is_idom(adj, root, c, b),
    ensures
        a == c,
{
    if a != c {
        assert(dominates(adj, root, c, a));
        assert(dominates(adj, root, a, c));
        law_strict_dominance_one_way(adj, root, a, c);
    }
}

/// Where `c` strictly dominates `b` and `a` does not dominate `c`, some walk
/// from the root to `b` keeps clear of `a`, unless `c` comes after the last
/// `a` on the walk `p` to `b`.
proof fn lemma_bypass(
    adj: Seq<Vec<usize>>,
    root: usize,
    a: usize,
    c: usize,
    b: usize,
    p: Seq<usize>,
    i: int,
    j: int,
)
    requires
        path_from_to(adj, p, root, b),
        a != c,
        0 <= j < i < p.len(),
        p[i] == c,
        forall|k: int| i < k < p.len() ==> p[k] != a,
        !dominates(adj, root, a, c),
    ensures
        !(forall|q: Seq<usize>| #[trigger] path_from_to(adj, q, root, b) ==> q.contains(a)),
{
    lemma_path_prefix(adj, p, i);
    assert(path_from_to(adj, p.take(i + 1), root, c));
    assert(keeps_clear(p.take(i + 1), None));
    assert(reaches(adj, root, c));
    let u = choose|u: Seq<usize>| #[trigger] path_from_to(adj, u, root, c) && !u.contains(a);
    lemma_path_suffix(adj, p, i);
    let v = p.subrange(i, p.len() as int);
    lemma_path_join(adj, u, v, root, c, b);
    let w = u + v.subrange(1, v.len() as int);
    assert(!v.contains(a)) by {
        if v.contains(a) {
            let k = choose|k: int| 0 <= k < v.len() && v[k] == a;
            assert(p[i + k] == a);
        }
    }
    assert(path_from_to(adj, w, root, b));
    assert(!w.contains(a));
}

/// Of two strict dominators of one node, one dominates the other: the
/// dominators of a node lie in one line.
pub proof fn law_dominators_comparable(
    adj: Seq<Vec<usize>>,
    root: usize,
    a: usize,
    c: usize,
    b: usize,
)
    requires
        strictly_dominates(adj, root, a, b),
        strictly_dominates(adj, root, c, b),
    ensures
        dominates(adj, root, a, c) || dominates(adj, root, c, a),
{
    if a != c && !dominates(adj, root, a, c) && !dominates(adj, root, c, a) {
        let p = choose|p: Seq<usize>| #[trigger]
            path_from_to(adj, p, root, b) && keeps_clear(p, None);
        assert(p.contains(a) && p.contains(c));
        let j = lemma_last_occurrence(p, a);
        let i = lemma_last_occurrence(p, c);
        if j < i {
            lemma_bypass(adj, root, a, c, b, p, i, j);
        } else {
            lemma_bypass(adj, root, c, a, b, p, j, i);
        }
    }
}

/// Among the strict dominators of `b` below `k`, and the root, one is
/// dominated by all the others.
proof fn lemma_closest(adj: Seq<Vec<usize>>, root: usize, b: usize, k: nat) -> (a: usize)
    requires
        strictly_dominates(adj, root, root, b),
    ensures
        strictly_dominates(adj, root, a, b),
        dominates(adj, root, root, a),
        forall|c: usize|
            c < k && #[trigger] strictly_dominates(adj, root, c, b) ==> dominates(adj, root, c, a),
    decreases k,
{
    if k == 0 {
        root
    } else {
        let a0 = lemma_closest(adj, root, b, (k - 1) as nat);
        let c0 = (k - 1) as usize;
        if c0 == k - 1 && strictly_dominates(adj, root, c0, b) && !dominates(adj, root, c0, a0) {
            law_dominators_comparable(adj, root, a0, c0, b);
            law_dominance_transitive(adj, root, root, a0, c0);
            assert forall|c: usize|
                c < k && #[trigger] strictly_dominates(adj, root, c, b) implies dominates(
                adj,
                root,
                c,
                c0,
            ) by {
                if c < k - 1 {
                    law_dominance_transitive(adj, root, c, a0, c0);
                }
            }
            c0
        } else {
            a0
        }
    }
}

/// A node that the root reaches, other than the root, has an immediate
/// dominator.
pub proof fn law_idom_exists(adj: Seq<Vec<usize>>, root: usize, b: usize)
    requires
        root < adj.len(),
        reaches(adj, root, b),
        b != root,
    ensures
        exists|a: usize| is_idom(adj, root, a, b),
{
    assert forall|p: Seq<usize>| #[trigger] path_from_to(adj, p, root, b) implies p.contains(
        root,
    ) by {
        assert(p[0] == root);
    }
    let a = lemma_closest(adj, root, b, adj.len());
    assert forall|c: usize| #[trigger] strictly_dominates(adj, root, c, b) implies dominates(
        adj,
        root,
        c,
        a,
    ) by {
        lemma_dominator_in_range(adj, root, c, b);
    }
    assert(is_idom(adj, root, a, b));
}

/// The root has no immediate dominator, and neither has a node that the
/// root does not reach.
pub proof fn law_idom_absent(adj: Seq<Vec<usize>>, root: usize, a: usize, b: usize)
    requires
        root < adj.len(),
        b == root || !reaches(adj, root, b),
    ensures
        !is_idom(adj, root, a, b),
{
    if b == root {
        let p = seq![root];
        assert(path_from_to(adj, p, root, b));
        if a != b && p.contains(a) {
            let k = choose|k: int| 0 <= k < p.len() && p[k] == a;
            assert(p[k] == root);
        }
    }
}

/// The strict dominators of a node are its immediate dominator and the
/// strict dominators of that one: the way from a node to the root along
/// the immediate dominators passes through its dominators and nothing
/// else.
pub proof fn law_dominators_through_idom(
    adj: Seq<Vec<usize>>,
    root: usize,
    a: usize,
    b: usize,
    c: usize,
)
    requires
        is_idom(adj, root, a, b),
    ensures
        strictly_dominates(adj, root, c, b) <==> (c == a || strictly_dominates(adj, root, c, a)),
{
    if strictly_dominates(adj, root, c, a) {
        law_dominance_transitive(adj, root, c, a, b);
        if c == b {
            law_strict_dominance_one_way(adj, root, a, b);
        }
    }
}

/// A node without an immediate dominator has no strict dominator.
pub proof fn law_no_idom_no_dominator(adj: Seq<Vec<usize>>, root: usize, c: usize, b: usize)
    requires
        root < adj.len(),
        forall|a: usize| !is_idom(adj, root, a, b),
    ensures
        !strictly_dominates(adj, root, c, b),
{
    if strictly_dominates(adj, root, c, b) {
        if b == root {
            law_idom_absent(adj, root, c, b);
            let p = seq![root];
            assert(path_from_to(adj, p, root, b));
            if p.contains(c) {
                let k = choose|k: int| 0 <= k < p.len() && p[k] == c;
                assert(p[k] == root);
            }
        } else {
            law_idom_exists(adj, root, b);
        }
    }
}

/// The root dominates every node that it reaches.
pub proof fn law_root_dominates(adj: Seq<Vec<usize>>, root: usize, b: usize)
    requires
        reaches(adj, root, b),
    ensures
        dominates(adj, root, root, b),
{
    assert forall|p: Seq<usize>| #[trigger] path_from_to(adj, p, root, b) implies p.contains(
        root,
    ) by {
        assert(p[0] == root);
    }
}

/// The immediate dominator of a node lies on every walk from the root to
/// it.
pub proof fn law_idom_on_every_path(
    adj: Seq<Vec<usize>>,
    root: usize,
    a: usize,
    b: usize,
    p: Seq<usize>,
)
    requires
        is_idom(adj, root, a, b),
        path_from_to(adj, p, root, b),
    ensures
        p.contains(a),
{
}

/// How many entries of `s` are true.
pub open spec fn count_true(s: Seq<bool>) -> nat
    decreases s.len(),
{
    if s.len() == 0 {
        0
    } else {
        count_true(s.drop_last()) + if s.last() {
            1nat
        } else {
            0nat
        }
    }
}

/// How many entries of all the rows are true.
pub open spec fn total_true(rows: Seq<Vec<bool>>) -> nat
    decreases rows.len(),
{
    if rows.len() == 0 {
        0
    } else {
        total_true(rows.drop_last()) + count_true(rows.last()@)
    }
}

/// Some entry among the first `upto` is true in `before` and false in
/// `after`.
pub open spec fn lost(before: Seq<bool>, after: Seq<bool>, upto: int) -> bool {
    exists|i: int| 0 <= i < upto && before[i] && !#[trigger] after[i]
}

proof fn lemma_count_shrinks(before: Seq<bool>, after: Seq<bool>)
    requires
        before.len() == after.len(),
        forall|i: int| 0 <= i < after.len() ==> (after[i] ==> before[i]),
    ensures
        count_true(after) <= count_true(before),
        lost(before, after, after.len() as int) ==> count_true(after) < count_true(before),
    decreases before.len(),
{
    if before.len() > 0 {
        lemma_count_shrinks(before.drop_last(), after.drop_last());
        if lost(before, after, after.len() as int) {
            let i = choose|i: int| 0 <= i < after.len() && before[i] && !#[trigger] after[i];
            if i < before.len() - 1 {
                assert(before.drop_last()[i] && !after.drop_last()[i]);
                assert(lost(before.drop_last(), after.drop_last(), after.len() - 1));
            }
        }
    }
}

proof fn lemma_total_update(rows: Seq<Vec<bool>>, b: int, row: Vec<bool>)
    requires
        0 <= b < rows.len(),
    ensures
        total_true(rows.update(b, row)) + count_true(rows[b]@) == total_true(rows) + count_true(
            row@,
        ),
    decreases rows.len(),
{
    if b == rows.len() - 1 {
        assert(rows.update(b, row).drop_last() =~= rows.drop_last());
    } else {
        lemma_total_update(rows.drop_last(), b, row);
        assert(rows.update(b, row).drop_last() =~= rows.drop_last().update(b, row));
    }
}

/// `radj` is `adj` with every edge turned round.
pub open spec fn turned_round(adj: Seq<Vec<usize>>, radj: Seq<Vec<usize>>) -> bool {
    &&& adj.len() == radj.len()
    &&& forall|a: usize, b: usize| edge(radj, b, a) <==> edge(adj, a, b)
}

/// The sets hold, for each node that the root reaches, at least its
/// dominators; for the root itself alone; for any other node nothing.
pub open spec fn sets_cover(
    sets: Seq<Vec<bool>>,
    adj: Seq<Vec<usize>>,
    root: usize,
    reach: Seq<bool>,
) -> bool {
    &&& sets.len() == adj.len()
    &&& reach.len() == adj.len()
    &&& root < adj.len()
    &&& forall|b: int| 0 <= b < sets.len() ==> (#[trigger] sets[b])@.len() == adj.len()
    &&& forall|a: usize, b: usize|
        a < adj.len() && b < adj.len() && reach[b as int] && #[trigger] dominates(adj, root, a, b)
            ==> sets[b as int]@[a as int]
    &&& forall|a: usize| a < adj.len() ==> (sets[root as int]@[a as int] <==> a == root)
    &&& forall|a: usize, b: usize|
        a < adj.len() && b < adj.len() && !reach[b as int] ==> !sets[b as int]@[a as int]
}

/// Whatever is in the set of `b`, but `b` itself, is in the set of every
/// predecessor of `b` that the root reaches.
pub open spec fn settled(
    sets: Seq<Vec<bool>>,
    radj: Seq<Vec<usize>>,
    reach: Seq<bool>,
    b: usize,
) -> bool {
    forall|a: usize|
        a < sets.len() && a != b && #[trigger] sets[b as int]@[a as int] ==> forall|k: int|
            0 <= k < radj[b as int]@.len() && reach[(#[trigger] radj[b as int]@[k]) as int]
                ==> sets[radj[b as int]@[k] as int]@[a as int]
}

/// A strict dominator of a node dominates each of its predecessors that
/// the root reaches.
pub proof fn lemma_dominator_of_pred(adj: Seq<Vec<usize>>, root: usize, a: usize, p: usize, b: usize)
    requires
        strictly_dominates(adj, root, a, b),
        edge(adj, p, b),
        reaches(adj, root, p),
    ensures
        dominates(adj, root, a, p),
{
    if a != p {
        assert forall|q: Seq<usize>| #[trigger] path_from_to(adj, q, root, p) implies q.contains(
            a,
        ) by {
            lemma_path_extend(adj, q, root, p, b);
            assert(q.push(b).contains(a));
        }
    }
}

/// Once every set is settled, what is in the set of a node of a walk from
/// the root lies on the walk, at that node or before.
proof fn lemma_settled_on_path(
    sets: Seq<Vec<bool>>,
    adj: Seq<Vec<usize>>,
    radj: Seq<Vec<usize>>,
    root: usize,
    reach: Seq<bool>,
    q: Seq<usize>,
    k: int,
    a: usize,
)
    requires
        sets_cover(sets, adj, root, reach),
        turned_round(adj, radj),
        forall|b: usize| b < adj.len() ==> (reach[b as int] <==> reaches(adj, root, b)),
        forall|b: usize|
            b < adj.len() && reach[b as int] && b != root ==> settled(sets, radj, reach, b),
        is_path(adj, q),
        q[0] == root,
        0 <= k < q.len(),
        a < adj.len(),
        sets[q[k] as int]@[a as int],
    ensures
        q.take(k + 1).contains(a),
    decreases k,
{
    lemma_path_in_range(adj, q, k);
    if a == q[k] {
        assert(q.take(k + 1)[k] == a);
    } else if k == 0 {
    } else if q[k] == root {
    } else {
        let b = q[k];
        let p = q[k - 1];
        lemma_path_in_range(adj, q, k - 1);
        lemma_path_prefix(adj, q, k - 1);
        assert(keeps_clear(q.take(k), None));
        assert(reaches(adj, root, p));
        lemma_path_prefix(adj, q, k);
        assert(keeps_clear(q.take(k + 1), None));
        assert(reaches(adj, root, b));
        assert(edge(adj, q[k - 1], q[k - 1 + 1]));
        assert(edge(radj, b, p));
        let i = choose|i: int| 0 <= i < radj[b as int]@.len() && radj[b as int]@[i] == p;
        assert(settled(sets, radj, reach, b));
        assert(reach[radj[b as int]@[i] as int]);
        assert(sets[p as int]@[a as int]);
        lemma_settled_on_path(sets, adj, radj, root, reach, q, k - 1, a);
        let j = choose|j: int| 0 <= j < q.take(k).len() && q.take(k)[j] == a;
        assert(q.take(k + 1)[j] == a);
    }
}

/// A row of `n` entries, each of them `v`.
fn filled(n: usize, v: bool) -> (row: Vec<bool>)
    ensures
        row@.len() == n,
        forall|i: int| 0 <= i < n ==> row@[i] == v,
{
    let mut row: Vec<bool> = Vec::new();
    let mut i: usize = 0;
    while i < n
        invariant
            i <= n,
            row@.len() == i,
            forall|k: int| 0 <= k < i ==> row@[k] == v,
        decreases n - i,
    {
        row.push(v);
        i += 1;
    }
    row
}

/// Whether `a` is in the set of every node of `list` that the root
/// reaches.
fn in_all(list: &Vec<usize>, reach: &Vec<bool>, sets: &Vec<Vec<bool>>, a: usize) -> (r: bool)
    requires
        a < sets@.len(),
        reach@.len() == sets@.len(),
        forall|b: int| 0 <= b < sets@.len() ==> (#[trigger] sets@[b])@.len() == sets@.len(),
        forall|k: int| 0 <= k < list@.len() ==> list@[k] < sets@.len(),
    ensures
        r <==> forall|k: int|
            0 <= k < list@.len() && reach@[(#[trigger] list@[k]) as int]
                ==> sets@[list@[k] as int]@[a as int],
{
    let mut k: usize = 0;
    while k < list.len()
        invariant
            k <= list@.len(),
            a < sets@.len(),
            reach@.len() == sets@.len(),
            forall|b: int| 0 <= b < sets@.len() ==> (#[trigger] sets@[b])@.len() == sets@.len(),
            forall|j: int| 0 <= j < list@.len() ==> list@[j] < sets@.len(),
            forall|j: int|
                0 <= j < k && reach@[(#[trigger] list@[j]) as int]
                    ==> sets@[list@[j] as int]@[a as int],
        decreases list@.len() - k,
    {
        let p: usize = list[k];
        if reach[p] && !sets[p][a] {
            return false;
        }
        k += 1;
    }
    true
}

/// The set of `b` cut down to itself and what is in the set of every
/// predecessor of `b` that the root reaches. The second result says
/// whether anything was cut.
fn refine(radj: &Vec<Vec<usize>>, reach: &Vec<bool>, sets: &Vec<Vec<bool>>, b: usize) -> (r: (
    Vec<bool>,
    bool,
))
    requires
        b < sets@.len(),
        radj@.len() == sets@.len(),
        adj_wf(radj@),
        reach@.len() == sets@.len(),
        forall|x: int| 0 <= x < sets@.len() ==> (#[trigger] sets@[x])@.len() == sets@.len(),
    ensures
        r.0@.len() == sets@.len(),
        forall|a: usize|
            a < sets@.len() ==> (r.0@[a as int] <==> sets@[b as int]@[a as int] && (a == b
                || forall|k: int|
                0 <= k < radj@[b as int]@.len() && reach@[(#[trigger] radj@[b as int]@[k]) as int]
                    ==> sets@[radj@[b as int]@[k] as int]@[a as int])),
        r.1 <==> lost(sets@[b as int]@, r.0@, sets@.len() as int),
{
    let n: usize = sets.len();
    let mut row: Vec<bool> = Vec::new();
    let mut cut: bool = false;
    let mut a: usize = 0;
    while a < n
        invariant
            a <= n,
            n == sets@.len(),
            b < n,
            radj@.len() == n,
            adj_wf(radj@),
            reach@.len() == n,
            forall|x: int| 0 <= x < sets@.len() ==> (#[trigger] sets@[x])@.len() == sets@.len(),
            row@.len() == a,
            forall|c: usize|
                c < a ==> (row@[c as int] <==> sets@[b as int]@[c as int] && (c == b || forall|
                    k: int,
                |
                    0 <= k < radj@[b as int]@.len() && reach@[(#[trigger] radj@[b as int]@[k]) as int]
                        ==> sets@[radj@[b as int]@[k] as int]@[c as int])),
            cut <==> lost(sets@[b as int]@, row@, a as int),
        decreases n - a,
    {
        let had: bool = sets[b][a];
        let keep: bool = had && (a == b || in_all(&radj[b], reach, sets, a));
        let ghost before = row@;
        row.push(keep);
        proof {
            let whole = sets@[b as int]@;
            if lost(whole, before, a as int) {
                let i = choose|i: int| 0 <= i < a && whole[i] && !#[trigger] before[i];
                assert(row@[i] == before[i]);
                assert(lost(whole, row@, a + 1));
            }
            if had && !keep {
                assert(whole[a as int] && !row@[a as int]);
                assert(lost(whole, row@, a + 1));
            }
            if lost(whole, row@, a + 1) {
                let i = choose|i: int| 0 <= i < a + 1 && whole[i] && !#[trigger] row@[i];
                if i < a {
                    assert(row@[i] == before[i]);
                    assert(lost(whole, before, a as int));
                }
            }
        }
        if had && !keep {
            cut = true;
        }
        a += 1;
    }
    (row, cut)
}

/// The sets are the dominators of each node that the root reaches, and
/// empty for every other node.
pub open spec fn sets_describe(sets: Seq<Vec<bool>>, adj: Seq<Vec<usize>>, root: usize) -> bool {
    &&& sets.len() == adj.len()
    &&& forall|b: int| 0 <= b < sets.len() ==> (#[trigger] sets[b])@.len() == adj.len()
    &&& forall|a: usize, b: usize|
        a < adj.len() && b < adj.len() ==> (#[trigger] sets[b as int]@[a as int] <==> reaches(
            adj,
            root,
            b,
        ) && dominates(adj, root, a, b))
}

/// What has been computed of a rooted graph: what the root reaches, the
/// dominators of each node, and each node's immediate dominator.
pub struct DomTable {
    pub adj: Ghost<Seq<Vec<usize>>>,
    pub root: usize,
    pub reach: Vec<bool>,
    pub doms: Vec<Vec<bool>>,
    pub idom: Vec<Option<usize>>,
}

impl DomTable {
    /// The table is that of its graph and root.
    pub open spec fn well_formed(&self) -> bool {
        let adj = self.adj@;
        &&& self.root < adj.len()
        &&& self.reach@.len() == adj.len()
        &&& self.idom@.len() == adj.len()
        &&& forall|b: usize|
            b < adj.len() ==> (self.reach@[b as int] <==> reaches(adj, self.root, b))
        &&& sets_describe(self.doms@, adj, self.root)
        &&& forall|b: usize|
            b < adj.len() ==> match #[trigger] self.idom@[b as int] {
                Some(a) => a < adj.len() && is_idom(adj, self.root, a, b),
                None => forall|a: usize| !is_idom(adj, self.root, a, b),
            }
    }

    /// Computes the table of the graph `adj` rooted at `root`, where `radj`
    /// is the same graph with its edges turned round.
    pub fn compute(adj: &Vec<Vec<usize>>, radj: &Vec<Vec<usize>>, root: usize) -> (t: DomTable)
        requires
            adj_wf(adj@),
            adj_wf(radj@),
            turned_round(adj@, radj@),
            root < adj.len(),
        ensures
            t.well_formed(),
            t.adj@ == adj@,
            t.root == root,
    {
        let n: usize = adj.len();
        let reach: Vec<bool> = reach_avoiding(adj, root, None);
        let doms: Vec<Vec<bool>> = dominator_sets(adj, radj, root, &reach);
        let mut idom: Vec<Option<usize>> = Vec::new();
        let mut b: usize = 0;
        while b < n
            invariant
                b <= n,
                n == adj@.len(),
                root < n,
                sets_describe(doms@, adj@, root),
                idom@.len() == b,
                forall|y: usize|
                    y < b ==> match #[trigger] idom@[y as int] {
                        Some(x) => x < n && is_idom(adj@, root, x, y),
                        None => forall|x: usize| !is_idom(adj@, root, x, y),
                    },
            decreases n - b,
        {
            let found: Option<usize> = immediate_of(&doms, b, Ghost(adj@), Ghost(root));
            idom.push(found);
            b += 1;
        }
        DomTable { adj: Ghost(adj@), root, reach, doms, idom }
    }

    /// A node has more dominators than its immediate dominator has.
    proof fn lemma_parent_smaller(&self, p: usize, b: usize)
        requires
            self.well_formed(),
            is_idom(self.adj@, self.root, p, b),
        ensures
            p < self.adj@.len(),
            b < self.adj@.len(),
            count_true(self.doms@[p as int]@) < count_true(self.doms@[b as int]@),
    {
        let adj = self.adj@;
        let root = self.root;
        lemma_dominator_in_range(adj, root, p, b);
        let upper = self.doms@[p as int]@;
        let lower = self.doms@[b as int]@;
        assert(upper.len() == self.doms@[p as int].len());
        assert forall|i: int| 0 <= i < upper.len() && upper[i] implies lower[i] by {
            let x = i as usize;
            assert(self.doms@[p as int]@[x as int]);
            law_dominance_transitive(adj, root, x, p, b);
            assert(self.doms@[b as int]@[x as int]);
        }
        law_strict_dominance_one_way(adj, root, p, b);
        assert(self.doms@[b as int]@[b as int]);
        assert(!self.doms@[p as int]@[b as int]);
        assert(lower[b as int] && !upper[b as int]);
        assert(lost(lower, upper, upper.len() as int));
        lemma_count_shrinks(lower, upper);
    }

    /// Whether `a` dominates `b`: whether the way from `b` to the root
    /// along the immediate dominators passes through `a`.
    pub fn walk_dominates(&self, a: usize, b: usize) -> (r: bool)
        requires
            self.well_formed(),
            a < self.adj@.len(),
            b < self.adj@.len(),
        ensures
            r == dominates(self.adj@, self.root, a, b),
    {
        let mut runner: usize = b;
        loop
            invariant
                self.well_formed(),
                runner < self.adj@.len(),
                dominates(self.adj@, self.root, runner, b),
                dominates(self.adj@, self.root, a, b) ==> dominates(
                    self.adj@,
                    self.root,
                    a,
                    runner,
                ),
            decreases count_true(self.doms@[runner as int]@),
        {
            if runner == a {
                return true;
            }
            match self.idom[runner] {
                None => {
                    proof {
                        law_no_idom_no_dominator(self.adj@, self.root, a, runner);
                    }
                    return false;
                },
                Some(p) => {
                    proof {
                        self.lemma_parent_smaller(p, runner);
                        law_dominance_transitive(self.adj@, self.root, p, runner, b);
                        law_dominators_through_idom(self.adj@, self.root, p, runner, a);
                    }
                    runner = p;
                },
            }
        }
    }

    /// `row` holds what `start` held, and every dominator of `b` that does
    /// not dominate `top`.
    pub open spec fn marked_below(
        &self,
        start: Seq<bool>,
        row: Seq<bool>,
        b: usize,
        top: usize,
    ) -> bool {
        &&& row.len() == self.adj@.len()
        &&& start.len() == self.adj@.len()
        &&& forall|y: usize|
            y < self.adj@.len() ==> (#[trigger] row[y as int] <==> start[y as int] || (dominates(
                self.adj@,
                self.root,
                y,
                b,
            ) && !dominates(self.adj@, self.root, y, top)))
    }

    /// Marks every node on the way from `b` along the immediate dominators
    /// up to `stop`, and not `stop` itself.
    pub fn mark_up_to(&self, row: &mut Vec<bool>, b: usize, stop: usize)
        requires
            self.well_formed(),
            old(row)@.len() == self.adj@.len(),
            b < self.adj@.len(),
            stop < self.adj@.len(),
            dominates(self.adj@, self.root, stop, b),
        ensures
            self.marked_below(old(row)@, final(row)@, b, stop),
    {
        let ghost start = row@;
        let mut runner: usize = b;
        while runner != stop
            invariant
                self.well_formed(),
                runner < self.adj@.len(),
                stop < self.adj@.len(),
                b < self.adj@.len(),
                dominates(self.adj@, self.root, runner, b),
                dominates(self.adj@, self.root, stop, runner),
                self.marked_below(start, row@, b, runner),
            decreases count_true(self.doms@[runner as int]@),
        {
            match self.idom[runner] {
                None => {
                    proof {
                        law_no_idom_no_dominator(self.adj@, self.root, stop, runner);
                    }
                    return ;
                },
                Some(p) => {
                    let ghost before = row@;
                    row.set(runner, true);
                    proof {
                        self.lemma_parent_smaller(p, runner);
                        self.lemma_step_up(start, before, row@, b, runner, p);
                        law_dominance_transitive(self.adj@, self.root, p, runner, b);
                        assert(strictly_dominates(self.adj@, self.root, stop, runner));
                        assert(dominates(self.adj@, self.root, stop, p));
                    }
                    runner = p;
                },
            }
        }
    }

    /// Marking a node moves the mark's upper end to its immediate
    /// dominator.
    proof fn lemma_step_up(
        &self,
        start: Seq<bool>,
        before: Seq<bool>,
        after: Seq<bool>,
        b: usize,
        runner: usize,
        p: usize,
    )
        requires
            self.well_formed(),
            runner < self.adj@.len(),
            is_idom(self.adj@, self.root, p, runner),
            dominates(self.adj@, self.root, runner, b),
            self.marked_below(start, before, b, runner),
            after == before.update(runner as int, true),
        ensures
            self.marked_below(start, after, b, p),
    {
        let adj = self.adj@;
        let root = self.root;
        law_strict_dominance_one_way(adj, root, p, runner);
        assert forall|y: usize| y < adj.len() implies (#[trigger] after[y as int]
            <==> start[y as int] || (dominates(adj, root, y, b) && !dominates(adj, root, y, p))) by {
            law_dominators_through_idom(adj, root, p, runner, y);
            if y == runner {
                assert(after[y as int]);
                assert(!strictly_dominates(adj, root, runner, p));
                assert(runner != p);
                assert(!dominates(adj, root, y, p));
            } else {
                assert(after[y as int] == before[y as int]);
                assert(before[y as int] <==> start[y as int] || (dominates(adj, root, y, b)
                    && !dominates(adj, root, y, runner)));
                assert(strictly_dominates(adj, root, y, runner) <==> (y == p
                    || strictly_dominates(adj, root, y, p)));
                assert(dominates(adj, root, y, runner) <==> dominates(adj, root, y, p));
            }
        }
    }
}

/// For each node `b`, the set of its dominators, where the root reaches it,
/// and the empty set where not. Each set starts as large as can be and is
/// cut down to the node itself and what all its predecessors have, until
/// nothing changes.
pub fn dominator_sets(
    adj: &Vec<Vec<usize>>,
    radj: &Vec<Vec<usize>>,
    root: usize,
    reach: &Vec<bool>,
) -> (sets: Vec<Vec<bool>>)
    requires
        adj_wf(adj@),
        adj_wf(radj@),
        turned_round(adj@, radj@),
        root < adj.len(),
        reach@.len() == adj@.len(),
        forall|b: usize| b < adj@.len() ==> (reach@[b as int] <==> reaches(adj@, root, b)),
    ensures
        sets@.len() == adj@.len(),
        forall|b: int| 0 <= b < sets@.len() ==> (#[trigger] sets@[b])@.len() == adj@.len(),
        forall|a: usize, b: usize|
            a < adj@.len() && b < adj@.len() ==> (#[trigger] sets@[b as int]@[a as int] <==> reaches(
                adj@,
                root,
                b,
            ) && dominates(adj@, root, a, b)),
{
    let n: usize = adj.len();
    let mut sets: Vec<Vec<bool>> = Vec::new();
    let mut b: usize = 0;
    while b < n
        invariant
            b <= n,
            n == adj@.len(),
            root < n,
            reach@.len() == n,
            sets@.len() == b,
            forall|x: int| 0 <= x < b ==> (#[trigger] sets@[x])@.len() == n,
            forall|x: usize, a: usize|
                x < b && a < n ==> (sets@[x as int]@[a as int] <==> if x == root {
                    a == root
                } else {
                    reach@[x as int]
                }),
        decreases n - b,
    {
        let row: Vec<bool> = if b == root {
            let mut r: Vec<bool> = filled(n, false);
            r.set(root, true);
            r
        } else {
            filled(n, reach[b])
        };
        sets.push(row);
        b += 1;
    }
    proof {
        assert(path_from_to(adj@, seq![root], root, root));
        assert(keeps_clear(seq![root], None));
        assert forall|a: usize, x: usize|
            a < n && x < n && reach@[x as int] && #[trigger] dominates(
                adj@,
                root,
                a,
                x,
            ) implies sets@[x as int]@[a as int] by {
            if x == root {
                law_idom_absent(adj@, root, a, x);
                if a != root {
                    let p = seq![root];
                    if p.contains(a) {
                        let k = choose|k: int| 0 <= k < p.len() && p[k] == a;
                        assert(p[k] == root);
                    }
                }
            }
        }
        assert(sets_cover(sets@, adj@, root, reach@));
    }
    let mut changed: bool = true;
    while changed
        invariant
            n == adj@.len(),
            adj_wf(adj@),
            adj_wf(radj@),
            turned_round(adj@, radj@),
            forall|x: usize| x < adj@.len() ==> (reach@[x as int] <==> reaches(adj@, root, x)),
            sets_cover(sets@, adj@, root, reach@),
            !changed ==> forall|x: usize|
                x < n && reach@[x as int] && x != root ==> settled(sets@, radj@, reach@, x),
        decreases total_true(sets@) + if changed { 1nat } else { 0nat },
    {
        let ghost start = sets@;
        changed = false;
        let mut b: usize = 0;
        while b < n
            invariant
                b <= n,
                n == adj@.len(),
                adj_wf(adj@),
                adj_wf(radj@),
                turned_round(adj@, radj@),
                forall|x: usize| x < adj@.len() ==> (reach@[x as int] <==> reaches(adj@, root, x)),
                sets_cover(sets@, adj@, root, reach@),
                changed ==> total_true(sets@) < total_true(start),
                !changed ==> sets@ == start,
                !changed ==> forall|x: usize|
                    x < b && reach@[x as int] && x != root ==> settled(sets@, radj@, reach@, x),
            decreases n - b,
        {
            if reach[b] && b != root {
                let (row, cut) = refine(radj, reach, &sets, b);
                if cut {
                    proof {
                        lemma_count_shrinks(sets@[b as int]@, row@);
                        lemma_total_update(sets@, b as int, row);
                        let after = sets@.update(b as int, row);
                        assert forall|a: usize, x: usize|
                            a < n && x < n && reach@[x as int] && #[trigger] dominates(
                                adj@,
                                root,
                                a,
                                x,
                            ) implies after[x as int]@[a as int] by {
                            if x == b && a != b {
                                assert forall|k: int|
                                    0 <= k < radj@[b as int]@.len() && reach@[(
                                    #[trigger] radj@[b as int]@[k]) as int] implies sets@[radj@[b as int]@[k] as int]@[a as int] by {
                                    let p = radj@[b as int]@[k];
                                    assert(radj@[b as int]@.contains(p));
                                    assert(edge(radj@, b, p));
                                    lemma_dominator_of_pred(adj@, root, a, p, b);
                                }
                            }
                        }
                        assert(sets_cover(after, adj@, root, reach@));
                    }
                    sets.set(b, row);
                    changed = true;
                } else {
                    proof {
                        assert forall|a: usize|
                            a < sets@.len() && a != b && #[trigger] sets@[b as int]@[a as int] implies forall|
                            k: int,
                        |
                            0 <= k < radj@[b as int]@.len() && reach@[(
                            #[trigger] radj@[b as int]@[k]) as int]
                                ==> sets@[radj@[b as int]@[k] as int]@[a as int] by {
                            assert(row@[a as int]);
                        }
                        assert(settled(sets@, radj@, reach@, b));
                    }
                }
            }
            b += 1;
        }
    }
    proof {
        assert forall|a: usize, b: usize| a < n && b < n && sets@[b as int]@[a as int] implies reaches(
            adj@,
            root,
            b,
        ) && dominates(adj@, root, a, b) by {
            if a != b {
                assert forall|q: Seq<usize>| #[trigger]
                    path_from_to(adj@, q, root, b) implies q.contains(a) by {
                    lemma_settled_on_path(sets@, adj@, radj@, root, reach@, q, q.len() - 1, a);
                    assert(q.take(q.len() as int) =~= q);
                }
            }
        }
    }
    sets
}

/// Whether `a` is the immediate dominator of `b`, read from the sets.
fn is_immediate(
    sets: &Vec<Vec<bool>>,
    a: usize,
    b: usize,
    Ghost(adj): Ghost<Seq<Vec<usize>>>,
    Ghost(root): Ghost<usize>,
) -> (r: bool)
    requires
        sets_describe(sets@, adj, root),
        a < adj.len(),
        b < adj.len(),
    ensures
        r == is_idom(adj, root, a, b),
{
    let n: usize = sets.len();
    if a == b || !sets[b][a] {
        return false;
    }
    let mut c: usize = 0;
    while c < n
        invariant
            c <= n,
            n == adj.len(),
            a < n,
            b < n,
            sets_describe(sets@, adj, root),
            forall|x: usize|
                x < c && #[trigger] strictly_dominates(adj, root, x, b) ==> dominates(
                    adj,
                    root,
                    x,
                    a,
                ),
        decreases n - c,
    {
        if c != b && sets[b][c] && c != a && !sets[a][c] {
            assert(strictly_dominates(adj, root, c, b));
            assert(!dominates(adj, root, c, a));
            return false;
        }
        c += 1;
    }
    proof {
        assert forall|x: usize| #[trigger] strictly_dominates(adj, root, x, b) implies dominates(
            adj,
            root,
            x,
            a,
        ) by {
            lemma_dominator_in_range(adj, root, x, b);
        }
    }
    true
}

/// The immediate dominator of `b`, if it has one.
fn immediate_of(
    sets: &Vec<Vec<bool>>,
    b: usize,
    Ghost(adj): Ghost<Seq<Vec<usize>>>,
    Ghost(root): Ghost<usize>,
) -> (r: Option<usize>)
    requires
        sets_describe(sets@, adj, root),
        b < adj.len(),
    ensures
        match r {
            Some(a) => a < adj.len() && is_idom(adj, root, a, b),
            None => forall|a: usize| !is_idom(adj, root, a, b),
        },
{
    let n: usize = sets.len();
    let mut a: usize = 0;
    while a < n
        invariant
            a <= n,
            n == adj.len(),
            b < n,
            sets_describe(sets@, adj, root),
            forall|x: usize| x < a ==> !is_idom(adj, root, x, b),
        decreases n - a,
    {
        if is_immediate(sets, a, b, Ghost(adj), Ghost(root)) {
            return Some(a);
        }
        a += 1;
    }
    proof {
        assert forall|x: usize| !is_idom(adj, root, x, b) by {
            if is_idom(adj, root, x, b) {
                lemma_dominator_in_range(adj, root, x, b);
            }
        }
    }
    None
}

} // verus!
