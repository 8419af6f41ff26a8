//! Directed graphs given by adjacency lists, paths in them, and what can be
//! reached from a root: the ground that dominance stands on.
use vstd::prelude::*;

verus! {

/// Every neighbour that a list names is a node of the graph.
pub open spec fn adj_wf(adj: Seq<Vec<usize>>) -> bool {
    forall|i: int, k: int|
        0 <= i < adj.len() && 0 <= k < adj[i]@.len() ==> (#[trigger] adj[i]@[k]) < adj.len()
}

/// The graph has an edge from `a` to `b`.
pub open spec fn edge(adj: Seq<Vec<usize>>, a: usize, b: usize) -> bool {
    a < adj.len() && b < adj.len() && adj[a as int]@.contains(b)
}

/// `p` is a walk along the edges of the graph, of at least one node.
pub open spec fn is_path(adj: Seq<Vec<usize>>, p: Seq<usize>) -> bool {
    &&& p.len() > 0
    &&& p[0] < adj.len()
    &&& forall|k: int| 0 <= k < p.len() - 1 ==> edge(adj, #[trigger] p[k], p[k + 1])
}

/// `p` is a walk from `a` to `b`.
pub open spec fn path_from_to(adj: Seq<Vec<usize>>, p: Seq<usize>, a: usize, b: usize) -> bool {
    is_path(adj, p) && p[0] == a && p.last() == b
}

/// `p` does not pass through the node `avoid`, if there is one.
pub open spec fn keeps_clear(p: Seq<usize>, avoid: Option<usize>) -> bool {
    match avoid {
        Some(a) => !p.contains(a),
        None => true,
    }
}

/// Some walk leads from `root` to `b` without passing through `avoid`.
pub open spec fn reaches_avoiding(
    adj: Seq<Vec<usize>>,
    root: usize,
    b: usize,
    avoid: Option<usize>,
) -> bool {
    exists|p: Seq<usize>| #[trigger] path_from_to(adj, p, root, b) && keeps_clear(p, avoid)
}

/// Some walk leads from `root` to `b`.
pub open spec fn reaches(adj: Seq<Vec<usize>>, root: usize, b: usize) -> bool {
    reaches_avoiding(adj, root, b, None)
}

/// How many entries of `s` are false.
pub open spec fn count_false(s: Seq<bool>) -> nat
    decreases s.len(),
{
    if s.len() == 0 {
        0
    } else {
        count_false(s.drop_last()) + if s.last() {
            0nat
        } else {
            1nat
        }
    }
}

proof fn lemma_count_set(s: Seq<bool>, i: int)
    requires
        0 <= i < s.len(),
        !s[i],
    ensures
        count_false(s.update(i, true)) + 1 == count_false(s),
    decreases s.len(),
{
    if i == s.len() - 1 {
        assert(s.update(i, true).drop_last() =~= s.drop_last());
    } else {
        lemma_count_set(s.drop_last(), i);
        assert(s.update(i, true).drop_last() =~= s.drop_last().update(i, true));
    }
}

/// A walk that ends in `u` goes on along an edge from `u` to `v`.
pub proof fn lemma_path_extend(adj: Seq<Vec<usize>>, p: Seq<usize>, root: usize, u: usize, v: usize)
    requires
        path_from_to(adj, p, root, u),
        edge(adj, u, v),
    ensures
        path_from_to(adj, p.push(v), root, v),
        forall|a: usize| !p.contains(a) && a != v ==> !p.push(v).contains(a),
{
    let q = p.push(v);
    assert forall|k: int| 0 <= k < q.len() - 1 implies edge(adj, #[trigger] q[k], q[k + 1]) by {
        if k < p.len() - 1 {
            assert(q[k] == p[k] && q[k + 1] == p[k + 1]);
        } else {
            assert(q[k] == u && q[k + 1] == v);
        }
    }
    assert forall|a: usize| !p.contains(a) && a != v implies !q.contains(a) by {
        if q.contains(a) {
            let j = choose|j: int| 0 <= j < q.len() && q[j] == a;
            assert(j < p.len());
            assert(p[j] == a);
        }
    }
}

/// The first `k + 1` nodes of a walk are a walk to its node `k`.
pub proof fn lemma_path_prefix(adj: Seq<Vec<usize>>, p: Seq<usize>, k: int)
    requires
        is_path(adj, p),
        0 <= k < p.len(),
    ensures
        path_from_to(adj, p.take(k + 1), p[0], p[k]),
        forall|a: usize| p.take(k + 1).contains(a) ==> p.contains(a),
{
    let q = p.take(k + 1);
    assert forall|j: int| 0 <= j < q.len() - 1 implies edge(adj, #[trigger] q[j], q[j + 1]) by {
        assert(q[j] == p[j] && q[j + 1] == p[j + 1]);
    }
    assert forall|a: usize| q.contains(a) implies p.contains(a) by {
        let j = choose|j: int| 0 <= j < q.len() && q[j] == a;
        assert(p[j] == a);
    }
}

/// The last place at which `x` occurs in `p`.
pub proof fn lemma_last_occurrence(p: Seq<usize>, x: usize) -> (j: int)
    requires
        p.contains(x),
    ensures
        0 <= j < p.len(),
        p[j] == x,
        forall|k: int| j < k < p.len() ==> p[k] != x,
    decreases p.len(),
{
    if p.last() == x {
        p.len() - 1
    } else {
        let q = p.drop_last();
        let i = choose|i: int| 0 <= i < p.len() && p[i] == x;
        assert(q[i] == x);
        let j = lemma_last_occurrence(q, x);
        assert(p[j] == q[j]);
        assert forall|k: int| j < k < p.len() implies p[k] != x by {
            if k < q.len() {
                assert(q[k] != x);
            }
        }
        j
    }
}

/// What is left of a walk from its node `j` on is a walk from that node to
/// the end.
pub proof fn lemma_path_suffix(adj: Seq<Vec<usize>>, p: Seq<usize>, j: int)
    requires
        is_path(adj, p),
        0 <= j < p.len(),
    ensures
        path_from_to(adj, p.subrange(j, p.len() as int), p[j], p.last()),
{
    let q = p.subrange(j, p.len() as int);
    lemma_path_in_range(adj, p, j);
    assert forall|k: int| 0 <= k < q.len() - 1 implies edge(adj, #[trigger] q[k], q[k + 1]) by {
        assert(q[k] == p[j + k] && q[k + 1] == p[j + k + 1]);
        assert(edge(adj, p[j + k], p[j + k + 1]));
    }
}

/// A walk to a node and a walk on from it make one walk, which passes
/// through nothing that neither of them passes through.
pub proof fn lemma_path_join(
    adj: Seq<Vec<usize>>,
    u: Seq<usize>,
    v: Seq<usize>,
    root: usize,
    mid: usize,
    b: usize,
)
    requires
        path_from_to(adj, u, root, mid),
        path_from_to(adj, v, mid, b),
    ensures
        path_from_to(adj, u + v.subrange(1, v.len() as int), root, b),
        forall|x: usize|
            (u + v.subrange(1, v.len() as int)).contains(x) ==> u.contains(x) || v.contains(x),
{
    let t = v.subrange(1, v.len() as int);
    let w = u + t;
    assert forall|k: int| 0 <= k < w.len() - 1 implies edge(adj, #[trigger] w[k], w[k + 1]) by {
        if k < u.len() - 1 {
            assert(w[k] == u[k] && w[k + 1] == u[k + 1]);
        } else if k == u.len() - 1 {
            assert(w[k] == u[k]);
            assert(w[k + 1] == v[1]);
            assert(edge(adj, v[0int], v[0int + 1]));
        } else {
            let i = k - u.len() + 1;
            assert(w[k] == v[i] && w[k + 1] == v[i + 1]);
            assert(edge(adj, v[i], v[i + 1]));
        }
    }
    assert(w[0] == u[0]);
    if t.len() == 0 {
        assert(w.last() == u.last());
        assert(v.len() == 1);
    } else {
        assert(w.last() == v.last());
    }
    assert forall|x: usize| w.contains(x) implies u.contains(x) || v.contains(x) by {
        let k = choose|k: int| 0 <= k < w.len() && w[k] == x;
        if k < u.len() {
            assert(u[k] == x);
        } else {
            assert(v[k - u.len() + 1] == x);
        }
    }
}

/// A walk read backwards is a walk in the graph whose edges are turned
/// round, through the same nodes.
pub proof fn lemma_reverse_path(
    adj: Seq<Vec<usize>>,
    rev: Seq<Vec<usize>>,
    p: Seq<usize>,
    a: usize,
    b: usize,
)
    requires
        adj.len() == rev.len(),
        forall|x: usize, y: usize| edge(rev, y, x) <==> edge(adj, x, y),
        path_from_to(adj, p, a, b),
    ensures
        path_from_to(rev, p.reverse(), b, a),
        p.reverse().reverse() == p,
        forall|x: usize| p.reverse().contains(x) <==> p.contains(x),
{
    let q = p.reverse();
    let n = p.len() as int;
    lemma_path_in_range(adj, p, n - 1);
    assert forall|k: int| 0 <= k < q.len() - 1 implies edge(rev, #[trigger] q[k], q[k + 1]) by {
        assert(q[k] == p[n - 1 - k] && q[k + 1] == p[n - 2 - k]);
        assert(edge(adj, p[n - 2 - k], p[n - 2 - k + 1]));
    }
    assert(q.reverse() =~= p);
    assert forall|x: usize| q.contains(x) <==> p.contains(x) by {
        if q.contains(x) {
            let k = choose|k: int| 0 <= k < q.len() && q[k] == x;
            assert(p[n - 1 - k] == x);
        }
        if p.contains(x) {
            let k = choose|k: int| 0 <= k < p.len() && p[k] == x;
            assert(q[n - 1 - k] == x);
        }
    }
}

/// Every node of a walk is a node of the graph.
pub proof fn lemma_path_in_range(adj: Seq<Vec<usize>>, p: Seq<usize>, k: int)
    requires
        is_path(adj, p),
        0 <= k < p.len(),
    ensures
        p[k] < adj.len(),
{
    if k > 0 {
        assert(edge(adj, p[k - 1], p[k - 1 + 1]));
    }
}

/// A set of marks that holds the root and is closed under the edges that do
/// not enter `avoid` holds every node of a walk from the root that keeps
/// clear of `avoid`.
proof fn lemma_closed_marks(
    adj: Seq<Vec<usize>>,
    mark: Seq<bool>,
    root: usize,
    avoid: Option<usize>,
    p: Seq<usize>,
    k: int,
)
    requires
        mark.len() == adj.len(),
        is_path(adj, p),
        p[0] == root,
        keeps_clear(p, avoid),
        0 <= k < p.len(),
        mark[root as int],
        forall|u: usize, v: usize|
            u < adj.len() && mark[u as int] && #[trigger] edge(adj, u, v) && avoid != Some(v)
                ==> mark[v as int],
    ensures
        mark[p[k] as int],
    decreases k,
{
    if k > 0 {
        lemma_closed_marks(adj, mark, root, avoid, p, k - 1);
        lemma_path_in_range(adj, p, k - 1);
        assert(edge(adj, p[k - 1], p[k - 1 + 1]));
        assert(p.contains(p[k]));
    }
}

/// Whether `x` occurs in `v`.
pub fn contains(v: &Vec<usize>, x: usize) -> (r: bool)
    ensures
        r == v@.contains(x),
{
    let mut i: usize = 0;
    while i < v.len()
        invariant
            i <= v.len(),
            forall|k: int| 0 <= k < i ==> v@[k] != x,
        decreases v.len() - i,
    {
        if v[i] == x {
            return true;
        }
        i += 1;
    }
    false
}

/// For each node, whether a walk leads to it from `root` that does not pass
/// through `avoid`.
pub fn reach_avoiding(adj: &Vec<Vec<usize>>, root: usize, avoid: Option<usize>) -> (mark: Vec<bool>)
    requires
        adj_wf(adj@),
        root < adj.len(),
    ensures
        mark.len() == adj.len(),
        forall|b: usize|
            b < adj.len() ==> (mark@[b as int] <==> reaches_avoiding(adj@, root, b, avoid)),
{
    let n: usize = adj.len();
    let mut mark: Vec<bool> = Vec::new();
    let mut i: usize = 0;
    while i < n
        invariant
            i <= n,
            mark.len() == i,
            forall|k: int| 0 <= k < i ==> !mark@[k],
        decreases n - i,
    {
        mark.push(false);
        i += 1;
    }
    if avoid == Some(root) {
        proof {
            assert forall|b: usize| b < adj.len() implies !reaches_avoiding(
                adj@,
                root,
                b,
                avoid,
            ) by {
                assert forall|p: Seq<usize>| #[trigger]
                    path_from_to(adj@, p, root, b) implies !keeps_clear(p, avoid) by {
                    assert(p[0] == root);
                    assert(p.contains(root));
                }
            }
        }
        return mark;
    }
    mark.set(root, true);
    proof {
        let p = seq![root];
        assert(path_from_to(adj@, p, root, root));
        assert forall|a: usize| a != root implies !p.contains(a) by {
            if p.contains(a) {
                let j = choose|j: int| 0 <= j < p.len() && p[j] == a;
                assert(p[j] == root);
            }
        }
        assert(keeps_clear(p, avoid));
    }
    let mut changed: bool = true;
    while changed
        invariant
            n == adj.len(),
            mark.len() == n,
            adj_wf(adj@),
            root < n,
            avoid != Some(root),
            mark@[root as int],
            forall|b: usize| b < n && mark@[b as int] ==> reaches_avoiding(adj@, root, b, avoid),
            !changed ==> forall|u: usize, v: usize|
                u < n && mark@[u as int] && #[trigger] edge(adj@, u, v) && avoid != Some(v)
                    ==> mark@[v as int],
        decreases count_false(mark@) + if changed { 1nat } else { 0nat },
    {
        let ghost before = mark@;
        changed = false;
        let mut u: usize = 0;
        while u < n
            invariant
                u <= n,
                n == adj.len(),
                mark.len() == n,
                adj_wf(adj@),
                root < n,
                mark@[root as int],
                forall|b: usize|
                    b < n && mark@[b as int] ==> reaches_avoiding(adj@, root, b, avoid),
                changed ==> count_false(mark@) < count_false(before),
                !changed ==> mark@ == before,
                !changed ==> forall|w: usize, v: usize|
                    w < u && mark@[w as int] && #[trigger] edge(adj@, w, v) && avoid != Some(v)
                        ==> mark@[v as int],
            decreases n - u,
        {
            if mark[u] {
                let mut k: usize = 0;
                while k < adj[u].len()
                    invariant
                        u < n,
                        k <= adj@[u as int]@.len(),
                        n == adj.len(),
                        mark.len() == n,
                        adj_wf(adj@),
                        root < n,
                        mark@[root as int],
                        mark@[u as int],
                        forall|b: usize|
                            b < n && mark@[b as int] ==> reaches_avoiding(adj@, root, b, avoid),
                        changed ==> count_false(mark@) < count_false(before),
                        !changed ==> mark@ == before,
                        !changed ==> forall|w: usize, v: usize|
                            w < u && mark@[w as int] && #[trigger] edge(adj@, w, v) && avoid
                                != Some(v) ==> mark@[v as int],
                        !changed ==> forall|j: int|
                            0 <= j < k && avoid != Some(adj@[u as int]@[j]) ==> mark@[adj@[u as int]@[j] as int],
                    decreases adj@[u as int]@.len() - k,
                {
                    let v: usize = adj[u][k];
                    assert(v < n);
                    if avoid != Some(v) && !mark[v] {
                        proof {
                            lemma_count_set(mark@, v as int);
                            let p = choose|p: Seq<usize>| #[trigger]
                                path_from_to(adj@, p, root, u) && keeps_clear(p, avoid);
                            assert(edge(adj@, u, v));
                            lemma_path_extend(adj@, p, root, u, v);
                            assert(path_from_to(adj@, p.push(v), root, v));
                            assert(keeps_clear(p.push(v), avoid));
                        }
                        mark.set(v, true);
                        changed = true;
                    }
                    k += 1;
                }
                proof {
                    if !changed {
                        assert forall|v: usize| #[trigger]
                            edge(adj@, u, v) && avoid != Some(v) implies mark@[v as int] by {
                            let j = choose|j: int|
                                0 <= j < adj@[u as int]@.len() && adj@[u as int]@[j] == v;
                            assert(mark@[adj@[u as int]@[j] as int]);
                        }
                    }
                }
            }
            u += 1;
        }
    }
    proof {
        assert forall|b: usize| b < adj.len() && reaches_avoiding(
            adj@,
            root,
            b,
            avoid,
        ) implies mark@[b as int] by {
            let p = choose|p: Seq<usize>| #[trigger]
                path_from_to(adj@, p, root, b) && keeps_clear(p, avoid);
            lemma_closed_marks(adj@, mark@, root, avoid, p, p.len() - 1);
        }
    }
    mark
}

} // verus!
