//! Directed graphs as successor lists, and reachability in them.
//!
//! A graph on the nodes `0..n` is a sequence of `n` successor lists. Node
//! `w` is reachable from node `u` if a path leads from `u` to `w`; a path
//! of one node is a path.

use vstd::prelude::*;

verus! {

/// Every successor is a node of the graph.
pub open spec fn closed_lists(adj: Seq<Seq<int>>) -> bool {
    forall|u: int, k: int|
        0 <= u < adj.len() && 0 <= k < adj[u].len() ==> 0 <= #[trigger] adj[u][k] < adj.len()
}

/// `w` is a successor of `u`.
pub open spec fn arc(adj: Seq<Seq<int>>, u: int, w: int) -> bool {
    0 <= u < adj.len() && 0 <= w < adj.len() && adj[u].contains(w)
}

/// `p` is a non-empty sequence of nodes, each a successor of the one before.
pub open spec fn is_path(adj: Seq<Seq<int>>, p: Seq<int>) -> bool {
    &&& p.len() > 0
    &&& 0 <= p[0] < adj.len()
    &&& forall|i: int| 0 <= i < p.len() - 1 ==> arc(adj, #[trigger] p[i], p[i + 1])
}

/// A path leads from `u` to `w`.
pub open spec fn reaches(adj: Seq<Seq<int>>, u: int, w: int) -> bool {
    exists|p: Seq<int>| is_path(adj, p) && p[0] == u && #[trigger] p.last() == w
}

/// Each of the two nodes is reachable from the other.
pub open spec fn mutually_reachable(adj: Seq<Seq<int>>, u: int, w: int) -> bool {
    reaches(adj, u, w) && reaches(adj, w, u)
}

/// Every node is reachable from every node.
pub open spec fn strongly_connected(adj: Seq<Seq<int>>) -> bool {
    forall|u: int, w: int|
        0 <= u < adj.len() && 0 <= w < adj.len() ==> #[trigger] reaches(adj, u, w)
}

/// `back` has the arcs of `adj`, each turned round.
pub open spec fn is_reverse(adj: Seq<Seq<int>>, back: Seq<Seq<int>>) -> bool {
    &&& back.len() == adj.len()
    &&& forall|u: int, w: int| #[trigger] arc(back, w, u) <==> arc(adj, u, w)
}

/// All nodes of a path are nodes of the graph.
pub proof fn lemma_path_in_range(adj: Seq<Seq<int>>, p: Seq<int>, i: int)
    requires
        is_path(adj, p),
        0 <= i < p.len(),
    ensures
        0 <= p[i] < adj.len(),
{
    if i > 0 {
        assert(arc(adj, p[i - 1], p[i - 1 + 1]));
    }
}

/// The ends of a path are nodes of the graph.
pub proof fn lemma_reaches_in_range(adj: Seq<Seq<int>>, u: int, w: int)
    requires
        reaches(adj, u, w),
    ensures
        0 <= u < adj.len(),
        0 <= w < adj.len(),
{
    let p = choose|p: Seq<int>| is_path(adj, p) && p[0] == u && #[trigger] p.last() == w;
    lemma_path_in_range(adj, p, p.len() - 1);
}

/// Every node reaches itself.
pub proof fn lemma_reaches_self(adj: Seq<Seq<int>>, u: int)
    requires
        0 <= u < adj.len(),
    ensures
        reaches(adj, u, u),
{
    let p = seq![u];
    assert(is_path(adj, p));
    assert(p[0] == u && p.last() == u);
}

/// A node reaches its successors.
pub proof fn lemma_reaches_arc(adj: Seq<Seq<int>>, u: int, w: int)
    requires
        arc(adj, u, w),
    ensures
        reaches(adj, u, w),
{
    let p = seq![u, w];
    assert(is_path(adj, p));
    assert(p[0] == u && p.last() == w);
}

/// Reachability is transitive.
pub proof fn lemma_reaches_transitive(adj: Seq<Seq<int>>, u: int, v: int, w: int)
    requires
        reaches(adj, u, v),
        reaches(adj, v, w),
    ensures
        reaches(adj, u, w),
{
    let p = choose|p: Seq<int>| is_path(adj, p) && p[0] == u && #[trigger] p.last() == v;
    let q = choose|q: Seq<int>| is_path(adj, q) && q[0] == v && #[trigger] q.last() == w;
    let r = p + q.drop_first();
    assert forall|i: int| 0 <= i < r.len() - 1 implies arc(adj, #[trigger] r[i], r[i + 1]) by {
        if i < p.len() - 1 {
            assert(arc(adj, p[i], p[i + 1]));
        } else {
            let k = i - p.len() + 1;
            assert(arc(adj, q[k], q[k + 1]));
            assert(r[i] == q[k]);
            assert(r[i + 1] == q[k + 1]);
        }
    }
    assert(is_path(adj, r));
    assert(r[0] == u);
    assert(r.last() == w);
}

/// One more arc at the end of a path.
pub proof fn lemma_reaches_then_arc(adj: Seq<Seq<int>>, u: int, v: int, w: int)
    requires
        reaches(adj, u, v),
        arc(adj, v, w),
    ensures
        reaches(adj, u, w),
{
    lemma_reaches_arc(adj, v, w);
    lemma_reaches_transitive(adj, u, v, w);
}

/// A piece of a path is a path.
pub proof fn lemma_subpath(adj: Seq<Seq<int>>, p: Seq<int>, from: int, to: int)
    requires
        is_path(adj, p),
        0 <= from <= to < p.len(),
    ensures
        reaches(adj, p[from], p[to]),
{
    let q = p.subrange(from, to + 1);
    lemma_path_in_range(adj, p, from);
    assert forall|i: int| 0 <= i < q.len() - 1 implies arc(adj, #[trigger] q[i], q[i + 1]) by {
        assert(arc(adj, p[from + i], p[from + i + 1]));
    }
    assert(is_path(adj, q));
    assert(q[0] == p[from] && q.last() == p[to]);
}

/// A path that starts inside a set of nodes and ends outside it has an
/// arc that leaves the set.
pub proof fn lemma_path_leaves(adj: Seq<Seq<int>>, p: Seq<int>, inside: Set<int>) -> (i: int)
    requires
        is_path(adj, p),
        inside.contains(p[0]),
        !inside.contains(p.last()),
    ensures
        0 <= i < p.len() - 1,
        inside.contains(p[i]),
        !inside.contains(p[i + 1]),
        arc(adj, p[i], p[i + 1]),
        reaches(adj, p[0], p[i]),
        reaches(adj, p[i + 1], p.last()),
    decreases p.len(),
{
    assert(p.len() > 1);
    let last = p.len() - 1;
    if inside.contains(p[last - 1]) {
        assert(arc(adj, p[last - 1], p[last - 1 + 1]));
        lemma_subpath(adj, p, 0, last - 1);
        lemma_subpath(adj, p, last, last);
        last - 1
    } else {
        let q = p.drop_last();
        assert forall|i: int| 0 <= i < q.len() - 1 implies arc(adj, #[trigger] q[i], q[i + 1]) by {
            assert(arc(adj, p[i], p[i + 1]));
        }
        let i = lemma_path_leaves(adj, q, inside);
        assert(arc(adj, p[i], p[i + 1]));
        lemma_subpath(adj, p, 0, i);
        lemma_subpath(adj, p, i + 1, last);
        i
    }
}

/// A path read backwards is a path of the reverse graph.
pub proof fn lemma_reverse_reaches(adj: Seq<Seq<int>>, back: Seq<Seq<int>>, u: int, w: int)
    requires
        is_reverse(adj, back),
        reaches(adj, u, w),
    ensures
        reaches(back, w, u),
{
    let p = choose|p: Seq<int>| is_path(adj, p) && p[0] == u && #[trigger] p.last() == w;
    let q = p.reverse();
    lemma_path_in_range(adj, p, p.len() - 1);
    assert forall|i: int| 0 <= i < q.len() - 1 implies arc(back, #[trigger] q[i], q[i + 1]) by {
        let k = p.len() - 2 - i;
        assert(arc(adj, p[k], p[k + 1]));
        assert(q[i] == p[k + 1]);
        assert(q[i + 1] == p[k]);
    }
    assert(is_path(back, q));
    assert(q[0] == w && q.last() == u);
}

/// Mutual reachability is symmetric and transitive.
pub proof fn lemma_mutual_transitive(adj: Seq<Seq<int>>, u: int, v: int, w: int)
    requires
        mutually_reachable(adj, u, v),
        mutually_reachable(adj, v, w),
    ensures
        mutually_reachable(adj, u, w),
        mutually_reachable(adj, w, u),
{
    lemma_reaches_transitive(adj, u, v, w);
    lemma_reaches_transitive(adj, w, v, u);
}

} // verus!
