//! Strongly connected components of a graph given by successor lists,
//! after Kosaraju: a depth-first pass that records the order in which the
//! nodes are finished, then a pass over the reverse graph that follows this
//! order from its end.

use crate::digraph::{
    arc, closed_lists, is_path, is_reverse, lemma_mutual_transitive, lemma_path_leaves,
    lemma_reaches_arc, lemma_reaches_in_range, lemma_reaches_self, lemma_reaches_then_arc,
    lemma_reaches_transitive, lemma_reverse_reaches, lemma_subpath, mutually_reachable, reaches,
};
use vstd::prelude::*;

verus! {

/// A sequence of machine integers as mathematical ones.
pub open spec fn ints(s: Seq<usize>) -> Seq<int> {
    Seq::new(s.len(), |i: int| s[i] as int)
}

/// Successor lists held in vectors, as a graph.
pub open spec fn lists(adj: Seq<Vec<usize>>) -> Seq<Seq<int>> {
    Seq::new(adj.len(), |u: int| ints(adj[u]@))
}

/// The nodes on the stack of the traversal, the bottom first.
pub open spec fn frame_nodes(stack: Seq<(usize, usize)>) -> Seq<int> {
    Seq::new(stack.len(), |i: int| stack[i].0 as int)
}

/// For each node on the stack, how many of its successors have been looked at.
pub open spec fn frame_progress(stack: Seq<(usize, usize)>) -> Seq<int> {
    Seq::new(stack.len(), |i: int| stack[i].1 as int)
}

/// `r` is among the first `i + 1` nodes of `order`.
pub open spec fn finished_by(order: Seq<int>, r: int, i: int) -> bool {
    exists|j: int| 0 <= j <= i && j < order.len() && #[trigger] order[j] == r
}

/// What the second pass needs of the order in which the first pass
/// finishes the nodes: whatever can be reached over a successor `v` of a
/// finished node was finished no later than that node, or lies on a cycle
/// through it (`v` leads back to the node).
pub open spec fn finish_ordered(adj: Seq<Seq<int>>, order: Seq<int>) -> bool {
    forall|i: int, v: int, r: int|
        #![trigger arc(adj, order[i], v), reaches(adj, v, r)]
        0 <= i < order.len() && arc(adj, order[i], v) && reaches(adj, v, r) ==> finished_by(
            order,
            r,
            i,
        ) || reaches(adj, v, order[i])
}

/// `order` holds every node of a graph with `n` nodes exactly once.
pub open spec fn lists_each_node_once(order: Seq<int>, n: int) -> bool {
    &&& order.len() == n
    &&& order.no_duplicates()
    &&& forall|i: int| 0 <= i < order.len() ==> 0 <= #[trigger] order[i] < n
    &&& forall|x: int| 0 <= x < n ==> #[trigger] order.contains(x)
}

/// The nodes that a depth-first traversal from `u` finishes, in the
/// order in which it finishes them, when `unseen` are the nodes that
/// have not been visited before: first what the traversals from the
/// successors of `u` finish, then `u`. Nothing if `u` has been visited.
pub open spec fn finished_from(adj: Seq<Seq<int>>, u: int, unseen: Set<int>) -> Seq<int>
    decreases unseen.len(), 0nat, 0nat,
{
    if unseen.finite() && unseen.contains(u) && 0 <= u < adj.len() {
        finished_from_all(adj, adj[u], unseen.remove(u)).push(u)
    } else {
        Seq::<int>::empty()
    }
}

/// The nodes that depth-first traversals from the nodes of `list`, one
/// after the other, finish, in the order in which they are finished.
pub open spec fn finished_from_all(adj: Seq<Seq<int>>, list: Seq<int>, unseen: Set<int>) -> Seq<int>
    decreases unseen.len(), 1nat, list.len(),
{
    if list.len() == 0 || !unseen.finite() {
        Seq::<int>::empty()
    } else {
        let first = finished_from(adj, list[0], unseen);
        proof {
            vstd::set_lib::lemma_len_difference(unseen, first.to_set());
        }
        first + finished_from_all(adj, list.drop_first(), unseen.difference(first.to_set()))
    }
}

/// The numbers from `from` up to, but without, `to`.
pub open spec fn up_from(from: int, to: int) -> Seq<int> {
    Seq::new((to - from) as nat, |i: int| from + i)
}

/// The nodes of the graph in the order in which a depth-first traversal
/// finishes them that takes the roots in increasing order and the
/// successors of a node in the order of its list.
pub open spec fn post_order(adj: Seq<Seq<int>>) -> Seq<int> {
    finished_from_all(
        adj,
        up_from(0, adj.len() as int),
        Set::new(|x: int| 0 <= x < adj.len()),
    )
}

/// The nodes that are not marked.
pub open spec fn unmarked(visited: Seq<bool>) -> Set<int> {
    Set::new(|x: int| 0 <= x < visited.len() && !visited[x])
}

/// What a traversal that has come to the stack `path`, with `next[i]`
/// successors of `path[i]` looked at, will still finish: for each node
/// on the stack, from the top, what the traversals from its remaining
/// successors finish and then the node itself; and then what the
/// traversals from the remaining roots finish.
pub open spec fn still_to_finish(
    adj: Seq<Seq<int>>,
    path: Seq<int>,
    next: Seq<int>,
    unseen: Set<int>,
    roots: Seq<int>,
) -> Seq<int>
    decreases path.len(),
{
    if path.len() == 0 {
        finished_from_all(adj, roots, unseen)
    } else {
        let below = finished_from_all(adj, adj[path.last()].skip(next.last()), unseen);
        below.push(path.last()) + still_to_finish(
            adj,
            path.drop_last(),
            next.drop_last(),
            unseen.difference(below.to_set()),
            roots,
        )
    }
}

proof fn lemma_unmarked_finite(visited: Seq<bool>)
    ensures
        unmarked(visited).finite(),
{
    let range = vstd::set_lib::set_int_range(0, visited.len() as int);
    vstd::set_lib::lemma_int_range(0, visited.len() as int);
    vstd::set_lib::lemma_len_subset(unmarked(visited), range);
}

/// A traversal from a visited node finishes nothing.
proof fn lemma_traversal_skips(adj: Seq<Seq<int>>, list: Seq<int>, unseen: Set<int>)
    requires
        unseen.finite(),
        list.len() > 0,
        !unseen.contains(list[0]),
    ensures
        finished_from_all(adj, list, unseen) == finished_from_all(adj, list.drop_first(), unseen),
{
    let first = finished_from(adj, list[0], unseen);
    assert(first == Seq::<int>::empty());
    assert(unseen.difference(first.to_set()) =~= unseen);
    assert(first + finished_from_all(adj, list.drop_first(), unseen) =~= finished_from_all(
        adj,
        list.drop_first(),
        unseen,
    ));
}

/// A traversal from a new node finishes what the traversals from its
/// successors finish, then the node, and goes on without these.
proof fn lemma_traversal_enters(adj: Seq<Seq<int>>, list: Seq<int>, unseen: Set<int>)
    requires
        unseen.finite(),
        list.len() > 0,
        unseen.contains(list[0]),
        0 <= list[0] < adj.len(),
    ensures
        ({
            let inner = finished_from_all(adj, adj[list[0]], unseen.remove(list[0]));
            finished_from_all(adj, list, unseen) == inner.push(list[0]) + finished_from_all(
                adj,
                list.drop_first(),
                unseen.remove(list[0]).difference(inner.to_set()),
            )
        }),
{
    let w = list[0];
    let inner = finished_from_all(adj, adj[w], unseen.remove(w));
    let first = finished_from(adj, w, unseen);
    assert(first == inner.push(w));
    inner.lemma_push_to_set_commute(w);
    assert(unseen.difference(first.to_set()) =~= unseen.remove(w).difference(inner.to_set()));
}

/// Skipping a visited successor changes nothing in what is still to be finished.
proof fn lemma_still_skip(
    adj: Seq<Seq<int>>,
    path: Seq<int>,
    next: Seq<int>,
    unseen: Set<int>,
    roots: Seq<int>,
)
    requires
        unseen.finite(),
        path.len() > 0,
        next.len() == path.len(),
        0 <= path.last() < adj.len(),
        0 <= next.last() < adj[path.last()].len(),
        !unseen.contains(adj[path.last()][next.last()]),
    ensures
        still_to_finish(adj, path, next.update(next.len() - 1, next.last() + 1), unseen, roots)
            == still_to_finish(adj, path, next, unseen, roots),
{
    let list = adj[path.last()];
    let k = next.last();
    let next2 = next.update(next.len() - 1, k + 1);
    lemma_traversal_skips(adj, list.skip(k), unseen);
    assert(list.skip(k).drop_first() =~= list.skip(k + 1));
    assert(next2.drop_last() =~= next.drop_last());
}

/// Entering a new successor changes nothing in what is still to be finished.
proof fn lemma_still_descend(
    adj: Seq<Seq<int>>,
    path: Seq<int>,
    next: Seq<int>,
    unseen: Set<int>,
    roots: Seq<int>,
)
    requires
        unseen.finite(),
        path.len() > 0,
        next.len() == path.len(),
        0 <= path.last() < adj.len(),
        0 <= next.last() < adj[path.last()].len(),
        unseen.contains(adj[path.last()][next.last()]),
        0 <= adj[path.last()][next.last()] < adj.len(),
    ensures
        still_to_finish(
            adj,
            path.push(adj[path.last()][next.last()]),
            next.update(next.len() - 1, next.last() + 1).push(0),
            unseen.remove(adj[path.last()][next.last()]),
            roots,
        ) == still_to_finish(adj, path, next, unseen, roots),
{
    let u = path.last();
    let list = adj[u];
    let k = next.last();
    let w = list[k];
    let path2 = path.push(w);
    let next1 = next.update(next.len() - 1, k + 1);
    let next2 = next1.push(0);
    let unseen2 = unseen.remove(w);
    // the new state, unfolded twice
    let inner = finished_from_all(adj, adj[w].skip(0), unseen2);
    assert(adj[w].skip(0) =~= adj[w]);
    assert(path2.drop_last() =~= path);
    assert(next2.drop_last() =~= next1);
    let unseen3 = unseen2.difference(inner.to_set());
    let after = finished_from_all(adj, list.skip(k + 1), unseen3);
    assert(next1.drop_last() =~= next.drop_last());
    let tail = still_to_finish(
        adj,
        path.drop_last(),
        next.drop_last(),
        unseen3.difference(after.to_set()),
        roots,
    );
    assert(still_to_finish(adj, path, next1, unseen3, roots) == after.push(u) + tail);
    assert(still_to_finish(adj, path2, next2, unseen2, roots) == inner.push(w) + (after.push(u)
        + tail));
    // the old state
    lemma_traversal_enters(adj, list.skip(k), unseen);
    assert(list.skip(k).drop_first() =~= list.skip(k + 1));
    let below = finished_from_all(adj, list.skip(k), unseen);
    assert(below == inner.push(w) + after);
    vstd::seq_lib::seq_to_set_distributes_over_add(inner.push(w), after);
    inner.lemma_push_to_set_commute(w);
    assert(unseen.difference(below.to_set()) =~= unseen3.difference(after.to_set()));
    assert(below.push(u) + tail =~= inner.push(w) + (after.push(u) + tail));
}

/// A node whose successors have all been looked at is the next to be finished.
proof fn lemma_still_finish(
    adj: Seq<Seq<int>>,
    path: Seq<int>,
    next: Seq<int>,
    unseen: Set<int>,
    roots: Seq<int>,
)
    requires
        unseen.finite(),
        path.len() > 0,
        next.len() == path.len(),
        0 <= path.last() < adj.len(),
        next.last() == adj[path.last()].len(),
    ensures
        still_to_finish(adj, path, next, unseen, roots) == seq![path.last()] + still_to_finish(
            adj,
            path.drop_last(),
            next.drop_last(),
            unseen,
            roots,
        ),
{
    let list = adj[path.last()];
    assert(list.skip(next.last()).len() == 0);
    let below = finished_from_all(adj, list.skip(next.last()), unseen);
    assert(below == Seq::<int>::empty());
    assert(unseen.difference(below.to_set()) =~= unseen);
    assert(below.push(path.last()) =~= seq![path.last()]);
}

/// The traversal from a new root: the root is the only node on the stack.
proof fn lemma_still_start(adj: Seq<Seq<int>>, root: int, unseen: Set<int>)
    requires
        unseen.finite(),
        0 <= root < adj.len(),
        unseen.contains(root),
    ensures
        still_to_finish(
            adj,
            seq![root],
            seq![0int],
            unseen.remove(root),
            up_from(root + 1, adj.len() as int),
        ) == finished_from_all(adj, up_from(root, adj.len() as int), unseen),
{
    let n = adj.len() as int;
    let roots = up_from(root, n);
    let later = up_from(root + 1, n);
    let path = seq![root];
    let next = seq![0int];
    lemma_traversal_enters(adj, roots, unseen);
    assert(roots.drop_first() =~= later);
    assert(adj[root].skip(0) =~= adj[root]);
    assert(path.drop_last() =~= Seq::<int>::empty());
    assert(next.drop_last() =~= Seq::<int>::empty());
    let inner = finished_from_all(adj, adj[root].skip(0), unseen.remove(root));
    assert(still_to_finish(adj, path, next, unseen.remove(root), later) == inner.push(root)
        + still_to_finish(
        adj,
        Seq::<int>::empty(),
        Seq::<int>::empty(),
        unseen.remove(root).difference(inner.to_set()),
        later,
    ));
}

/// A root that has been visited is passed over.
proof fn lemma_root_seen(adj: Seq<Seq<int>>, root: int, unseen: Set<int>)
    requires
        unseen.finite(),
        0 <= root < adj.len(),
        !unseen.contains(root),
    ensures
        finished_from_all(adj, up_from(root, adj.len() as int), unseen) == finished_from_all(
            adj,
            up_from(root + 1, adj.len() as int),
            unseen,
        ),
{
    lemma_traversal_skips(adj, up_from(root, adj.len() as int), unseen);
    assert(up_from(root, adj.len() as int).drop_first() =~= up_from(root + 1, adj.len() as int));
}

/// The state of the first pass. `visited` marks the nodes that are
/// finished (in `order`) or on the stack (`path`, with `next[i]` successors
/// of `path[i]` looked at).
pub open spec fn exploring(
    adj: Seq<Seq<int>>,
    visited: Seq<bool>,
    order: Seq<int>,
    path: Seq<int>,
    next: Seq<int>,
) -> bool {
    &&& closed_lists(adj)
    &&& visited.len() == adj.len()
    &&& next.len() == path.len()
    &&& forall|i: int|
        0 <= i < order.len() ==> 0 <= #[trigger] order[i] < adj.len() && visited[order[i]]
    &&& forall|i: int| 0 <= i < path.len() ==> 0 <= #[trigger] path[i] < adj.len() && visited[path[i]]
    &&& forall|x: int|
        0 <= x < adj.len() && #[trigger] visited[x] ==> order.contains(x) || path.contains(x)
    &&& order.no_duplicates()
    &&& path.no_duplicates()
    &&& forall|i: int, j: int|
        0 <= i < order.len() && 0 <= j < path.len() ==> #[trigger] order[i] != #[trigger] path[j]
    &&& forall|i: int| 0 <= i < path.len() - 1 ==> arc(adj, #[trigger] path[i], path[i + 1])
    &&& forall|i: int| 0 <= i < path.len() ==> 0 <= #[trigger] next[i] <= adj[path[i]].len()
    &&& forall|i: int, k: int|
        0 <= i < path.len() && 0 <= k < next[i] ==> visited[#[trigger] adj[path[i]][k]]
    &&& forall|i: int, k: int|
        0 <= i < order.len() && 0 <= k < adj[order[i]].len() ==> visited[#[trigger] adj[order[i]][k]]
    &&& finish_ordered(adj, order)
}

/// Finished nodes and nodes on the stack are distinct nodes of the graph,
/// so there are no more of them than the graph has nodes.
proof fn lemma_exploring_count(
    adj: Seq<Seq<int>>,
    visited: Seq<bool>,
    order: Seq<int>,
    path: Seq<int>,
    next: Seq<int>,
)
    requires
        exploring(adj, visited, order, path, next),
    ensures
        order.len() + path.len() <= adj.len(),
{
    let all = order + path;
    vstd::seq_lib::lemma_no_dup_in_concat(order, path);
    all.unique_seq_to_set();
    let range = vstd::set_lib::set_int_range(0, adj.len() as int);
    vstd::set_lib::lemma_int_range(0, adj.len() as int);
    assert forall|x: int| all.to_set().contains(x) implies range.contains(x) by {
        let i = choose|i: int| 0 <= i < all.len() && all[i] == x;
        if i < order.len() {
            assert(all[i] == order[i]);
        } else {
            assert(all[i] == path[i - order.len()]);
        }
    }
    vstd::set_lib::lemma_len_subset(all.to_set(), range);
}

/// The traversal starts at an unvisited node.
proof fn lemma_start(adj: Seq<Seq<int>>, visited: Seq<bool>, order: Seq<int>, root: int)
    requires
        exploring(adj, visited, order, Seq::empty(), Seq::empty()),
        0 <= root < adj.len(),
        !visited[root],
    ensures
        exploring(adj, visited.update(root, true), order, seq![root], seq![0int]),
{
    let visited2 = visited.update(root, true);
    let path2 = seq![root];
    assert(path2[0] == root);
    assert forall|x: int| 0 <= x < adj.len() && #[trigger] visited2[x] implies order.contains(x)
        || path2.contains(x) by {
        if x != root {
            assert(visited[x]);
        }
    }
    assert forall|i: int, k: int|
        0 <= i < order.len() && 0 <= k < adj[order[i]].len() implies visited2[#[trigger] adj[order[i]][k]] by {
        assert(visited[adj[order[i]][k]]);
    }
}

/// The next successor of the node on top of the stack was visited before: skip it.
proof fn lemma_skip(
    adj: Seq<Seq<int>>,
    visited: Seq<bool>,
    order: Seq<int>,
    path: Seq<int>,
    next: Seq<int>,
)
    requires
        exploring(adj, visited, order, path, next),
        path.len() > 0,
        next.last() < adj[path.last()].len(),
        visited[adj[path.last()][next.last()]],
    ensures
        exploring(adj, visited, order, path, next.update(next.len() - 1, next.last() + 1)),
{
    let top = next.len() - 1;
    let next2 = next.update(top, next.last() + 1);
    assert forall|i: int, k: int| 0 <= i < path.len() && 0 <= k < next2[i] implies visited[#[trigger] adj[path[i]][k]] by {
        if i == top && k == next.last() {
        } else {
            assert(0 <= k < next[i]);
        }
    }
}

/// The next successor of the node on top of the stack is new: visit it.
proof fn lemma_descend(
    adj: Seq<Seq<int>>,
    visited: Seq<bool>,
    order: Seq<int>,
    path: Seq<int>,
    next: Seq<int>,
)
    requires
        exploring(adj, visited, order, path, next),
        path.len() > 0,
        next.last() < adj[path.last()].len(),
        !visited[adj[path.last()][next.last()]],
    ensures
        exploring(
            adj,
            visited.update(adj[path.last()][next.last()], true),
            order,
            path.push(adj[path.last()][next.last()]),
            next.update(next.len() - 1, next.last() + 1).push(0),
        ),
{
    let top = next.len() - 1;
    let u = path.last();
    let w = adj[u][next.last()];
    let visited2 = visited.update(w, true);
    let path2 = path.push(w);
    let next2 = next.update(top, next.last() + 1).push(0);
    assert(0 <= w < adj.len());
    assert(adj[u].contains(w));
    assert(arc(adj, u, w));
    assert forall|i: int| 0 <= i < order.len() implies 0 <= #[trigger] order[i] < adj.len()
        && visited2[order[i]] by {}
    assert forall|i: int| 0 <= i < path2.len() implies 0 <= #[trigger] path2[i] < adj.len()
        && visited2[path2[i]] by {
        if i < path.len() {
            assert(path2[i] == path[i]);
        }
    }
    assert forall|x: int| 0 <= x < adj.len() && #[trigger] visited2[x] implies order.contains(x)
        || path2.contains(x) by {
        if x == w {
            assert(path2[path.len() as int] == w);
        } else {
            assert(visited[x]);
            if path.contains(x) {
                let j = choose|j: int| 0 <= j < path.len() && path[j] == x;
                assert(path2[j] == x);
            }
        }
    }
    assert forall|i: int, j: int| 0 <= i < j < path2.len() implies path2[i] != path2[j] by {
        if j == path.len() {
            assert(visited[path[i]]);
        }
    }
    assert forall|i: int, j: int| 0 <= i < order.len() && 0 <= j < path2.len() implies #[trigger] order[i]
        != #[trigger] path2[j] by {
        if j == path.len() {
            assert(visited[order[i]]);
        } else {
            assert(path2[j] == path[j]);
        }
    }
    assert forall|i: int| 0 <= i < path2.len() - 1 implies arc(adj, #[trigger] path2[i], path2[i + 1]) by {
        if i < path.len() - 1 {
            assert(arc(adj, path[i], path[i + 1]));
        }
    }
    assert forall|i: int| 0 <= i < path2.len() implies 0 <= #[trigger] next2[i] <= adj[path2[i]].len() by {
        if i < path.len() {
            assert(0 <= next[i] <= adj[path[i]].len());
        }
    }
    assert forall|i: int, k: int| 0 <= i < path2.len() && 0 <= k < next2[i] implies visited2[#[trigger] adj[path2[i]][k]] by {
        if i == top && k == next.last() {
        } else {
            assert(0 <= k < next[i]);
            assert(visited[adj[path[i]][k]]);
        }
    }
    assert forall|i: int, k: int|
        0 <= i < order.len() && 0 <= k < adj[order[i]].len() implies visited2[#[trigger] adj[order[i]][k]] by {
        assert(visited[adj[order[i]][k]]);
    }
}

/// All successors of the node on top of the stack have been looked at:
/// the node is finished.
proof fn lemma_finish(
    adj: Seq<Seq<int>>,
    visited: Seq<bool>,
    order: Seq<int>,
    path: Seq<int>,
    next: Seq<int>,
)
    requires
        exploring(adj, visited, order, path, next),
        path.len() > 0,
        next.last() == adj[path.last()].len(),
    ensures
        exploring(adj, visited, order.push(path.last()), path.drop_last(), next.drop_last()),
{
    let top = path.len() - 1;
    let u = path.last();
    let order2 = order.push(u);
    let path2 = path.drop_last();
    let next2 = next.drop_last();
    let done = order.len() as int;
    assert(order2[done] == u);
    assert forall|i: int| 0 <= i < order2.len() implies 0 <= #[trigger] order2[i] < adj.len()
        && visited[order2[i]] by {
        if i < done {
            assert(order2[i] == order[i]);
        }
    }
    assert forall|x: int| 0 <= x < adj.len() && #[trigger] visited[x] implies order2.contains(x)
        || path2.contains(x) by {
        if order.contains(x) {
            let j = choose|j: int| 0 <= j < order.len() && order[j] == x;
            assert(order2[j] == x);
        } else {
            let j = choose|j: int| 0 <= j < path.len() && path[j] == x;
            if j < top {
                assert(path2[j] == x);
            }
        }
    }
    assert forall|i: int, j: int| 0 <= i < j < order2.len() implies order2[i] != order2[j] by {
        if j == done {
            assert(order[i] != path[top]);
        }
    }
    assert forall|i: int, j: int| 0 <= i < order2.len() && 0 <= j < path2.len() implies #[trigger] order2[i]
        != #[trigger] path2[j] by {
        if i == done {
            assert(path[j] != path[top]);
        } else {
            assert(order[i] != path[j]);
        }
    }
    assert forall|i: int| 0 <= i < path2.len() - 1 implies arc(adj, #[trigger] path2[i], path2[i + 1]) by {
        assert(arc(adj, path[i], path[i + 1]));
    }
    assert forall|i: int| 0 <= i < path2.len() implies 0 <= #[trigger] next2[i] <= adj[path2[i]].len() by {
        assert(0 <= next[i] <= adj[path[i]].len());
    }
    assert forall|i: int, k: int| 0 <= i < path2.len() && 0 <= k < next2[i] implies visited[#[trigger] adj[path2[i]][k]] by {
        assert(visited[adj[path[i]][k]]);
    }
    assert forall|i: int, k: int|
        0 <= i < order2.len() && 0 <= k < adj[order2[i]].len() implies visited[#[trigger] adj[order2[i]][k]] by {
        if i < done {
            assert(visited[adj[order[i]][k]]);
        } else {
            assert(visited[adj[path[top]][k]]);
        }
    }
    assert forall|i: int, v: int, r: int|
        #![trigger arc(adj, order2[i], v), reaches(adj, v, r)]
        0 <= i < order2.len() && arc(adj, order2[i], v) && reaches(adj, v, r) implies finished_by(
        order2,
        r,
        i,
    ) || reaches(adj, v, order2[i]) by {
        if i < done {
            assert(order2[i] == order[i]);
            assert(arc(adj, order[i], v));
            if finished_by(order, r, i) {
                let j = choose|j: int| 0 <= j <= i && j < order.len() && #[trigger] order[j] == r;
                assert(order2[j] == r);
            }
        } else {
            lemma_finish_newest(adj, visited, order, path, next, v, r);
        }
    }
}

/// The heart of `lemma_finish`: what can be reached over a successor `v`
/// of the node that is being finished is finished already, or `v` leads
/// back to that node.
proof fn lemma_finish_newest(
    adj: Seq<Seq<int>>,
    visited: Seq<bool>,
    order: Seq<int>,
    path: Seq<int>,
    next: Seq<int>,
    v: int,
    r: int,
)
    requires
        exploring(adj, visited, order, path, next),
        path.len() > 0,
        next.last() == adj[path.last()].len(),
        arc(adj, path.last(), v),
        reaches(adj, v, r),
    ensures
        finished_by(order.push(path.last()), r, order.len() as int) || reaches(adj, v, path.last()),
{
    let top = path.len() - 1;
    let u = path.last();
    let order2 = order.push(u);
    let done = order.len() as int;
    assert(is_path(adj, path));
    if order2.contains(r) {
        let j = choose|j: int| 0 <= j < order2.len() && order2[j] == r;
        assert(finished_by(order2, r, done));
    } else {
        let kv = choose|k: int| 0 <= k < adj[u].len() && adj[u][k] == v;
        assert(visited[adj[path[top]][kv]]);
        if path.contains(v) {
            let j = choose|j: int| 0 <= j < path.len() && path[j] == v;
            lemma_subpath(adj, path, j, top);
        } else {
            assert(order.contains(v));
            let jv = choose|j: int| 0 <= j < order.len() && order[j] == v;
            assert(order2[jv] == v);
            let p = choose|p: Seq<int>| is_path(adj, p) && p[0] == v && #[trigger] p.last() == r;
            let inside = Set::new(|x: int| order2.contains(x));
            let e = lemma_path_leaves(adj, p, inside);
            let b = p[e];
            let c = p[e + 1];
            let jb = choose|j: int| 0 <= j < order2.len() && order2[j] == b;
            let kc = choose|k: int| 0 <= k < adj[b].len() && adj[b][k] == c;
            if jb < done {
                assert(order[jb] == b);
                assert(visited[adj[order[jb]][kc]]);
            } else {
                assert(visited[adj[path[top]][kc]]);
            }
            assert(visited[c]);
            if order.contains(c) {
                let jc = choose|j: int| 0 <= j < order.len() && order[j] == c;
                assert(order2[jc] == c);
            }
            assert(path.contains(c));
            let jc = choose|j: int| 0 <= j < path.len() && path[j] == c;
            lemma_subpath(adj, path, jc, top);
            lemma_reaches_then_arc(adj, v, b, c);
            lemma_reaches_transitive(adj, v, c, u);
        }
    }
}

/// Depth-first traversal from `root`, which has not been visited yet.
/// Every node that it visits is appended to `order` when all its
/// successors have been dealt with.
fn explore(adj: &Vec<Vec<usize>>, root: usize, visited: &mut Vec<bool>, order: &mut Vec<usize>)
    requires
        exploring(lists(adj@), old(visited)@, ints(old(order)@), Seq::empty(), Seq::empty()),
        root < adj.len(),
        !old(visited)[root as int],
        post_order(lists(adj@)) == ints(old(order)@) + finished_from_all(
            lists(adj@),
            up_from(root as int, adj.len() as int),
            unmarked(old(visited)@),
        ),
    ensures
        exploring(lists(adj@), final(visited)@, ints(final(order)@), Seq::empty(), Seq::empty()),
        final(visited)[root as int],
        forall|x: int| 0 <= x < adj.len() && old(visited)[x] ==> final(visited)[x],
        post_order(lists(adj@)) == ints(final(order)@) + finished_from_all(
            lists(adj@),
            up_from(root + 1, adj.len() as int),
            unmarked(final(visited)@),
        ),
{
    let ghost graph = lists(adj@);
    let ghost later = up_from(root + 1, adj.len() as int);
    let mut stack: Vec<(usize, usize)> = Vec::new();
    proof {
        lemma_start(graph, visited@, ints(order@), root as int);
        lemma_unmarked_finite(visited@);
        lemma_still_start(graph, root as int, unmarked(visited@));
        assert(unmarked(visited@.update(root as int, true)) =~= unmarked(visited@).remove(
            root as int,
        ));
    }
    visited.set(root, true);
    stack.push((root, 0));
    proof {
        assert(frame_nodes(stack@) =~= seq![root as int]);
        assert(frame_progress(stack@) =~= seq![0int]);
        lemma_exploring_count(
            graph,
            visited@,
            ints(order@),
            frame_nodes(stack@),
            frame_progress(stack@),
        );
    }
    while stack.len() > 0
        invariant
            graph == lists(adj@),
            root < adj.len(),
            visited[root as int],
            forall|x: int| 0 <= x < adj.len() && old(visited)[x] ==> visited[x],
            exploring(graph, visited@, ints(order@), frame_nodes(stack@), frame_progress(stack@)),
            order.len() + stack.len() <= adj.len(),
            later == up_from(root + 1, adj.len() as int),
            post_order(graph) == ints(order@) + still_to_finish(
                graph,
                frame_nodes(stack@),
                frame_progress(stack@),
                unmarked(visited@),
                later,
            ),
        decreases
            adj.len() - order.len() - stack.len(),
            stack.len(),
            if stack.len() > 0 {
                adj[stack[stack.len() - 1].0 as int].len() - stack[stack.len() - 1].1
            } else {
                0
            },
    {
        let ghost path = frame_nodes(stack@);
        let ghost next = frame_progress(stack@);
        let ghost seen = visited@;
        let ghost done = ints(order@);
        let top = stack.len() - 1;
        let (u, k) = stack[top];
        assert(path.last() == u && next.last() == k);
        assert(0 <= path[top as int] < graph.len());
        assert(0 <= next[top as int] <= graph[path[top as int]].len());
        proof {
            lemma_unmarked_finite(seen);
        }
        if k < adj[u].len() {
            let w = adj[u][k];
            assert(graph[u as int][k as int] == w);
            stack.set(top, (u, k + 1));
            if !visited[w] {
                proof {
                    lemma_descend(graph, seen, done, path, next);
                    lemma_still_descend(graph, path, next, unmarked(seen), later);
                    assert(unmarked(seen.update(w as int, true)) =~= unmarked(seen).remove(w as int));
                }
                visited.set(w, true);
                stack.push((w, 0));
                proof {
                    assert(frame_nodes(stack@) =~= path.push(w as int));
                    assert(frame_progress(stack@) =~= next.update(top as int, k + 1).push(0));
                    lemma_exploring_count(
                        graph,
                        visited@,
                        ints(order@),
                        frame_nodes(stack@),
                        frame_progress(stack@),
                    );
                }
            } else {
                proof {
                    lemma_skip(graph, seen, done, path, next);
                    lemma_still_skip(graph, path, next, unmarked(seen), later);
                    assert(frame_nodes(stack@) =~= path);
                    assert(frame_progress(stack@) =~= next.update(top as int, k + 1));
                }
            }
        } else {
            proof {
                lemma_finish(graph, seen, done, path, next);
                lemma_still_finish(graph, path, next, unmarked(seen), later);
            }
            stack.pop();
            order.push(u);
            proof {
                assert(frame_nodes(stack@) =~= path.drop_last());
                assert(frame_progress(stack@) =~= next.drop_last());
                assert(ints(order@) =~= done.push(u as int));
                let tail = still_to_finish(
                    graph,
                    path.drop_last(),
                    next.drop_last(),
                    unmarked(seen),
                    later,
                );
                assert(done + (seq![u as int] + tail) =~= done.push(u as int) + tail);
            }
        }
    }
    proof {
        assert(frame_nodes(stack@) =~= Seq::<int>::empty());
        assert(frame_progress(stack@) =~= Seq::<int>::empty());
    }
}

/// The first pass: the nodes of the graph in the order in which a
/// depth-first traversal finishes them. The traversal takes the roots in
/// increasing order and the successors of a node in the order of its list.
pub fn finish_order(adj: &Vec<Vec<usize>>) -> (order: Vec<usize>)
    requires
        closed_lists(lists(adj@)),
    ensures
        ints(order@) == post_order(lists(adj@)),
        lists_each_node_once(ints(order@), adj.len() as int),
        finish_ordered(lists(adj@), ints(order@)),
{
    let n = adj.len();
    let ghost graph = lists(adj@);
    let mut visited: Vec<bool> = Vec::new();
    let mut i: usize = 0;
    while i < n
        invariant
            i <= n,
            visited.len() == i,
            forall|x: int| 0 <= x < i ==> !visited[x],
        decreases n - i,
    {
        visited.push(false);
        i += 1;
    }
    let mut order: Vec<usize> = Vec::new();
    assert(ints(order@) =~= Seq::<int>::empty());
    assert(exploring(graph, visited@, ints(order@), Seq::empty(), Seq::empty()));
    proof {
        assert(unmarked(visited@) =~= Set::new(|x: int| 0 <= x < graph.len()));
        assert(ints(order@) + post_order(graph) =~= post_order(graph));
    }
    let mut root: usize = 0;
    while root < n
        invariant
            n == adj.len(),
            graph == lists(adj@),
            root <= n,
            exploring(graph, visited@, ints(order@), Seq::empty(), Seq::empty()),
            forall|x: int| 0 <= x < root ==> visited[x],
            post_order(graph) == ints(order@) + finished_from_all(
                graph,
                up_from(root as int, n as int),
                unmarked(visited@),
            ),
        decreases n - root,
    {
        if !visited[root] {
            explore(adj, root, &mut visited, &mut order);
        } else {
            proof {
                lemma_unmarked_finite(visited@);
                lemma_root_seen(graph, root as int, unmarked(visited@));
            }
        }
        root += 1;
    }
    proof {
        assert(up_from(n as int, n as int).len() == 0);
        assert(ints(order@) + Seq::<int>::empty() =~= ints(order@));
        let done = ints(order@);
        lemma_exploring_count(graph, visited@, done, Seq::empty(), Seq::empty());
        assert forall|x: int| 0 <= x < n implies #[trigger] done.contains(x) by {
            assert(visited[x]);
            assert(!Seq::<int>::empty().contains(x));
        }
        done.unique_seq_to_set();
        let range = vstd::set_lib::set_int_range(0, n as int);
        vstd::set_lib::lemma_int_range(0, n as int);
        vstd::seq_lib::seq_to_set_is_finite(done);
        assert(range.subset_of(done.to_set()));
        vstd::set_lib::lemma_len_subset(range, done.to_set());
    }
    order
}

/// How many entries of `marks` are set.
pub open spec fn count_set(marks: Seq<bool>) -> nat
    decreases marks.len(),
{
    if marks.len() == 0 {
        0
    } else {
        count_set(marks.drop_last()) + if marks.last() {
            1nat
        } else {
            0nat
        }
    }
}

proof fn lemma_count_set_bound(marks: Seq<bool>)
    ensures
        count_set(marks) <= marks.len(),
    decreases marks.len(),
{
    if marks.len() > 0 {
        lemma_count_set_bound(marks.drop_last());
    }
}

proof fn lemma_count_set_update(marks: Seq<bool>, i: int)
    requires
        0 <= i < marks.len(),
        !marks[i],
    ensures
        count_set(marks.update(i, true)) == count_set(marks) + 1,
    decreases marks.len(),
{
    let after = marks.update(i, true);
    if i == marks.len() - 1 {
        assert(after.drop_last() =~= marks.drop_last());
    } else {
        lemma_count_set_update(marks.drop_last(), i);
        assert(after.drop_last() =~= marks.drop_last().update(i, true));
    }
}

/// The state of the second pass between two traversals: the nodes
/// `order[todo..]` have been dealt with. Every labelled node carries the
/// root of its traversal, which lies in its strongly connected component,
/// and the labelled nodes are whole components.
pub open spec fn labelled(
    adj: Seq<Seq<int>>,
    order: Seq<int>,
    assigned: Seq<bool>,
    label: Seq<int>,
    todo: int,
) -> bool {
    &&& assigned.len() == adj.len()
    &&& label.len() == adj.len()
    &&& 0 <= todo <= order.len()
    &&& forall|j: int| todo <= j < order.len() ==> assigned[#[trigger] order[j]]
    &&& forall|x: int|
        0 <= x < adj.len() && #[trigger] assigned[x] ==> mutually_reachable(adj, x, label[x])
    &&& forall|a: int, b: int|
        0 <= a < adj.len() && assigned[a] && #[trigger] mutually_reachable(adj, a, b) ==> assigned[b]
            && label[b] == label[a]
}

/// The state of the second pass within the traversal of the reverse graph
/// that starts at `order[pos]`. `before` and `label_before` are the state
/// when it started; `path` and `next` are the stack, as in the first pass.
pub open spec fn growing(
    adj: Seq<Seq<int>>,
    back: Seq<Seq<int>>,
    order: Seq<int>,
    before: Seq<bool>,
    label_before: Seq<int>,
    assigned: Seq<bool>,
    label: Seq<int>,
    pos: int,
    path: Seq<int>,
    next: Seq<int>,
) -> bool {
    &&& closed_lists(back)
    &&& is_reverse(adj, back)
    &&& lists_each_node_once(order, adj.len() as int)
    &&& finish_ordered(adj, order)
    &&& 0 <= pos < order.len()
    &&& labelled(adj, order, before, label_before, pos + 1)
    &&& !before[order[pos]]
    &&& assigned[order[pos]]
    &&& assigned.len() == adj.len()
    &&& label.len() == adj.len()
    &&& next.len() == path.len()
    &&& forall|x: int|
        0 <= x < adj.len() && #[trigger] before[x] ==> assigned[x] && label[x] == label_before[x]
    &&& forall|x: int|
        0 <= x < adj.len() && #[trigger] assigned[x] && !before[x] ==> label[x] == order[pos]
            && mutually_reachable(adj, x, order[pos])
    &&& forall|i: int|
        0 <= i < path.len() ==> 0 <= #[trigger] path[i] < adj.len() && assigned[path[i]]
            && !before[path[i]]
    &&& forall|i: int| 0 <= i < path.len() ==> 0 <= #[trigger] next[i] <= back[path[i]].len()
    &&& forall|i: int, k: int|
        0 <= i < path.len() && 0 <= k < next[i] ==> assigned[#[trigger] back[path[i]][k]]
    &&& forall|t: int, k: int|
        0 <= t < adj.len() && assigned[t] && !before[t] && !path.contains(t) && 0 <= k
            < back[t].len() ==> assigned[#[trigger] back[t][k]]
}

/// A traversal of the second pass starts at the last node of the order
/// that has no label yet.
proof fn lemma_grow_start(
    adj: Seq<Seq<int>>,
    back: Seq<Seq<int>>,
    order: Seq<int>,
    assigned: Seq<bool>,
    label: Seq<int>,
    pos: int,
)
    requires
        closed_lists(back),
        is_reverse(adj, back),
        lists_each_node_once(order, adj.len() as int),
        finish_ordered(adj, order),
        0 <= pos < order.len(),
        labelled(adj, order, assigned, label, pos + 1),
        !assigned[order[pos]],
    ensures
        growing(
            adj,
            back,
            order,
            assigned,
            label,
            assigned.update(order[pos], true),
            label.update(order[pos], order[pos]),
            pos,
            seq![order[pos]],
            seq![0int],
        ),
{
    let r = order[pos];
    let assigned2 = assigned.update(r, true);
    let label2 = label.update(r, r);
    let path = seq![r];
    lemma_reaches_self(adj, r);
    assert(path[0] == r);
    assert forall|t: int, k: int|
        0 <= t < adj.len() && assigned2[t] && !assigned[t] && !path.contains(t) && 0 <= k
            < back[t].len() implies assigned2[#[trigger] back[t][k]] by {
        assert(t == r);
    }
}

/// The next predecessor of the node on top of the stack has a label: skip it.
proof fn lemma_grow_skip(
    adj: Seq<Seq<int>>,
    back: Seq<Seq<int>>,
    order: Seq<int>,
    before: Seq<bool>,
    label_before: Seq<int>,
    assigned: Seq<bool>,
    label: Seq<int>,
    pos: int,
    path: Seq<int>,
    next: Seq<int>,
)
    requires
        growing(adj, back, order, before, label_before, assigned, label, pos, path, next),
        path.len() > 0,
        next.last() < back[path.last()].len(),
        assigned[back[path.last()][next.last()]],
    ensures
        growing(
            adj,
            back,
            order,
            before,
            label_before,
            assigned,
            label,
            pos,
            path,
            next.update(next.len() - 1, next.last() + 1),
        ),
{
    let top = next.len() - 1;
    let next2 = next.update(top, next.last() + 1);
    assert forall|i: int, k: int| 0 <= i < path.len() && 0 <= k < next2[i] implies assigned[#[trigger] back[path[i]][k]] by {
        if i == top && k == next.last() {
        } else {
            assert(0 <= k < next[i]);
        }
    }
}

/// The next predecessor of the node on top of the stack has no label: it
/// lies in the component of the root.
proof fn lemma_grow_descend(
    adj: Seq<Seq<int>>,
    back: Seq<Seq<int>>,
    order: Seq<int>,
    before: Seq<bool>,
    label_before: Seq<int>,
    assigned: Seq<bool>,
    label: Seq<int>,
    pos: int,
    path: Seq<int>,
    next: Seq<int>,
)
    requires
        growing(adj, back, order, before, label_before, assigned, label, pos, path, next),
        path.len() > 0,
        next.last() < back[path.last()].len(),
        !assigned[back[path.last()][next.last()]],
    ensures
        growing(
            adj,
            back,
            order,
            before,
            label_before,
            assigned.update(back[path.last()][next.last()], true),
            label.update(back[path.last()][next.last()], order[pos]),
            pos,
            path.push(back[path.last()][next.last()]),
            next.update(next.len() - 1, next.last() + 1).push(0),
        ),
{
    let top = next.len() - 1;
    let r = order[pos];
    let u = path.last();
    let x = back[u][next.last()];
    let assigned2 = assigned.update(x, true);
    let label2 = label.update(x, r);
    let path2 = path.push(x);
    let next2 = next.update(top, next.last() + 1).push(0);
    assert(0 <= path[top] < adj.len());
    assert(0 <= next[top] <= back[path[top]].len());
    assert(0 <= x < adj.len());
    // x lies in the component of the root
    assert(back[u].contains(x));
    assert(arc(back, u, x));
    assert(arc(adj, x, u));
    assert(mutually_reachable(adj, u, r));
    assert(order.contains(x));
    let px = choose|j: int| 0 <= j < order.len() && order[j] == x;
    if px > pos {
        assert(assigned[order[px]]);
    }
    assert(px < pos);
    assert(arc(adj, order[px], u) && reaches(adj, u, r));
    if finished_by(order, r, px) {
        let j = choose|j: int| 0 <= j <= px && j < order.len() && #[trigger] order[j] == r;
        assert(order[j] == order[pos]);
    }
    assert(reaches(adj, u, x));
    lemma_reaches_transitive(adj, r, u, x);
    lemma_reaches_arc(adj, x, u);
    lemma_reaches_transitive(adj, x, u, r);
    assert(mutually_reachable(adj, x, r));
    assert(!before[x]);

    assert forall|y: int| 0 <= y < adj.len() && #[trigger] before[y] implies assigned2[y]
        && label2[y] == label_before[y] by {}
    assert forall|y: int| 0 <= y < adj.len() && #[trigger] assigned2[y] && !before[y] implies label2[y]
        == r && mutually_reachable(adj, y, r) by {
        if y != x {
            assert(assigned[y]);
        }
    }
    assert forall|i: int| 0 <= i < path2.len() implies 0 <= #[trigger] path2[i] < adj.len()
        && assigned2[path2[i]] && !before[path2[i]] by {
        if i < path.len() {
            assert(path2[i] == path[i]);
        }
    }
    assert forall|i: int| 0 <= i < path2.len() implies 0 <= #[trigger] next2[i] <= back[path2[i]].len() by {
        if i < path.len() {
            assert(0 <= next[i] <= back[path[i]].len());
        }
    }
    assert forall|i: int, k: int| 0 <= i < path2.len() && 0 <= k < next2[i] implies assigned2[#[trigger] back[path2[i]][k]] by {
        if i == top && k == next.last() {
        } else {
            assert(0 <= k < next[i]);
            assert(assigned[back[path[i]][k]]);
        }
    }
    assert forall|t: int, k: int|
        0 <= t < adj.len() && assigned2[t] && !before[t] && !path2.contains(t) && 0 <= k
            < back[t].len() implies assigned2[#[trigger] back[t][k]] by {
        if t == x {
            assert(path2[path.len() as int] == x);
        } else {
            if path.contains(t) {
                let j = choose|j: int| 0 <= j < path.len() && path[j] == t;
                assert(path2[j] == t);
            }
            assert(assigned[back[t][k]]);
        }
    }
}

/// All predecessors of the node on top of the stack have been looked at.
proof fn lemma_grow_finish(
    adj: Seq<Seq<int>>,
    back: Seq<Seq<int>>,
    order: Seq<int>,
    before: Seq<bool>,
    label_before: Seq<int>,
    assigned: Seq<bool>,
    label: Seq<int>,
    pos: int,
    path: Seq<int>,
    next: Seq<int>,
)
    requires
        growing(adj, back, order, before, label_before, assigned, label, pos, path, next),
        path.len() > 0,
        next.last() == back[path.last()].len(),
    ensures
        growing(
            adj,
            back,
            order,
            before,
            label_before,
            assigned,
            label,
            pos,
            path.drop_last(),
            next.drop_last(),
        ),
{
    let top = path.len() - 1;
    let path2 = path.drop_last();
    let next2 = next.drop_last();
    assert forall|i: int| 0 <= i < path2.len() implies 0 <= #[trigger] path2[i] < adj.len()
        && assigned[path2[i]] && !before[path2[i]] by {
        assert(path2[i] == path[i]);
    }
    assert forall|i: int| 0 <= i < path2.len() implies 0 <= #[trigger] next2[i] <= back[path2[i]].len() by {
        assert(0 <= next[i] <= back[path[i]].len());
    }
    assert forall|i: int, k: int| 0 <= i < path2.len() && 0 <= k < next2[i] implies assigned[#[trigger] back[path2[i]][k]] by {
        assert(assigned[back[path[i]][k]]);
    }
    assert forall|t: int, k: int|
        0 <= t < adj.len() && assigned[t] && !before[t] && !path2.contains(t) && 0 <= k
            < back[t].len() implies assigned[#[trigger] back[t][k]] by {
        if path.contains(t) {
            let j = choose|j: int| 0 <= j < path.len() && path[j] == t;
            if j < top {
                assert(path2[j] == t);
            }
            assert(j == top);
            assert(assigned[back[path[top]][k]]);
        }
    }
}

/// When the stack is empty, the traversal has labelled the whole strongly
/// connected component of its root, and nothing else.
proof fn lemma_grow_done(
    adj: Seq<Seq<int>>,
    back: Seq<Seq<int>>,
    order: Seq<int>,
    before: Seq<bool>,
    label_before: Seq<int>,
    assigned: Seq<bool>,
    label: Seq<int>,
    pos: int,
)
    requires
        growing(
            adj,
            back,
            order,
            before,
            label_before,
            assigned,
            label,
            pos,
            Seq::empty(),
            Seq::empty(),
        ),
    ensures
        labelled(adj, order, assigned, label, pos),
{
    let r = order[pos];
    assert forall|j: int| pos <= j < order.len() implies assigned[#[trigger] order[j]] by {
        if j > pos {
            assert(before[order[j]]);
        }
    }
    assert forall|x: int| 0 <= x < adj.len() && #[trigger] assigned[x] implies mutually_reachable(
        adj,
        x,
        label[x],
    ) by {
        if before[x] {
            assert(mutually_reachable(adj, x, label_before[x]));
        }
    }
    assert forall|a: int, b: int|
        0 <= a < adj.len() && assigned[a] && #[trigger] mutually_reachable(adj, a, b) implies assigned[b]
            && label[b] == label[a] by {
        lemma_reaches_in_range(adj, a, b);
        if before[a] {
            assert(before[b] && label_before[b] == label_before[a]);
        } else {
            lemma_mutual_transitive(adj, r, a, b);
            lemma_grow_complete(adj, back, order, before, label_before, assigned, label, pos, b);
        }
    }
}

/// The heart of `lemma_grow_done`: a node of the root's component cannot
/// have been missed.
proof fn lemma_grow_complete(
    adj: Seq<Seq<int>>,
    back: Seq<Seq<int>>,
    order: Seq<int>,
    before: Seq<bool>,
    label_before: Seq<int>,
    assigned: Seq<bool>,
    label: Seq<int>,
    pos: int,
    b: int,
)
    requires
        growing(
            adj,
            back,
            order,
            before,
            label_before,
            assigned,
            label,
            pos,
            Seq::empty(),
            Seq::empty(),
        ),
        mutually_reachable(adj, order[pos], b),
    ensures
        assigned[b],
        label[b] == order[pos],
{
    let r = order[pos];
    lemma_reaches_in_range(adj, r, b);
    if before[b] {
        assert(mutually_reachable(adj, b, r));
        assert(before[r]);
    }
    if !assigned[b] {
        lemma_reverse_reaches(adj, back, b, r);
        let q = choose|q: Seq<int>| is_path(back, q) && q[0] == r && #[trigger] q.last() == b;
        let tree = Set::new(|x: int| 0 <= x < adj.len() && assigned[x] && !before[x]);
        let e = lemma_path_leaves(back, q, tree);
        let t = q[e];
        let c = q[e + 1];
        let kc = choose|k: int| 0 <= k < back[t].len() && back[t][k] == c;
        assert(!Seq::<int>::empty().contains(t));
        assert(assigned[back[t][kc]]);
        assert(before[c]);
        // c and the root reach each other
        assert(arc(adj, c, t));
        lemma_reaches_arc(adj, c, t);
        assert(mutually_reachable(adj, t, r));
        lemma_reaches_transitive(adj, c, t, r);
        assert(is_reverse(back, adj)) by {
            assert forall|u: int, w: int| #[trigger] arc(adj, w, u) <==> arc(back, u, w) by {}
        }
        lemma_reverse_reaches(back, adj, c, b);
        lemma_reaches_transitive(adj, r, b, c);
        assert(mutually_reachable(adj, c, r));
        assert(before[r]);
    }
}

/// One traversal of the second pass: labels the nodes without a label
/// from which `root` can be reached over nodes without a label.
fn grow(
    Ghost(adj): Ghost<Seq<Seq<int>>>,
    back: &Vec<Vec<usize>>,
    order: &Vec<usize>,
    pos: usize,
    assigned: &mut Vec<bool>,
    label: &mut Vec<usize>,
)
    requires
        closed_lists(lists(back@)),
        is_reverse(adj, lists(back@)),
        lists_each_node_once(ints(order@), adj.len() as int),
        finish_ordered(adj, ints(order@)),
        pos < order.len(),
        labelled(adj, ints(order@), old(assigned)@, ints(old(label)@), pos + 1),
        !old(assigned)[order[pos as int] as int],
    ensures
        labelled(adj, ints(order@), final(assigned)@, ints(final(label)@), pos as int),
{
    let ghost turned = lists(back@);
    let ghost sequence = ints(order@);
    let ghost before = assigned@;
    let ghost label_before = ints(label@);
    let root = order[pos];
    assert(sequence[pos as int] == root);
    assert(0 <= sequence[pos as int] < adj.len());
    let mut stack: Vec<(usize, usize)> = Vec::new();
    proof {
        lemma_grow_start(adj, turned, sequence, before, label_before, pos as int);
        lemma_count_set_update(before, root as int);
        lemma_count_set_bound(before.update(root as int, true));
    }
    assigned.set(root, true);
    label.set(root, root);
    stack.push((root, 0));
    proof {
        assert(frame_nodes(stack@) =~= seq![root as int]);
        assert(frame_progress(stack@) =~= seq![0int]);
        assert(ints(label@) =~= label_before.update(root as int, root as int));
    }
    while stack.len() > 0
        invariant
            turned == lists(back@),
            sequence == ints(order@),
            pos < order.len(),
            sequence[pos as int] == root,
            growing(
                adj,
                turned,
                sequence,
                before,
                label_before,
                assigned@,
                ints(label@),
                pos as int,
                frame_nodes(stack@),
                frame_progress(stack@),
            ),
            count_set(assigned@) <= assigned.len(),
        decreases
            assigned.len() - count_set(assigned@),
            stack.len(),
            if stack.len() > 0 {
                back[stack[stack.len() - 1].0 as int].len() - stack[stack.len() - 1].1
            } else {
                0
            },
    {
        let ghost path = frame_nodes(stack@);
        let ghost next = frame_progress(stack@);
        let ghost marks = assigned@;
        let ghost names = ints(label@);
        let top = stack.len() - 1;
        let (u, k) = stack[top];
        assert(path.last() == u && next.last() == k);
        assert(0 <= path[top as int] < adj.len());
        assert(0 <= next[top as int] <= turned[path[top as int]].len());
        if k < back[u].len() {
            let x = back[u][k];
            assert(turned[u as int][k as int] == x);
            stack.set(top, (u, k + 1));
            if !assigned[x] {
                proof {
                    lemma_grow_descend(
                        adj,
                        turned,
                        sequence,
                        before,
                        label_before,
                        marks,
                        names,
                        pos as int,
                        path,
                        next,
                    );
                    lemma_count_set_update(marks, x as int);
                    lemma_count_set_bound(marks.update(x as int, true));
                }
                assigned.set(x, true);
                label.set(x, root);
                stack.push((x, 0));
                proof {
                    assert(frame_nodes(stack@) =~= path.push(x as int));
                    assert(frame_progress(stack@) =~= next.update(top as int, k + 1).push(0));
                    assert(ints(label@) =~= names.update(x as int, root as int));
                }
            } else {
                proof {
                    lemma_grow_skip(
                        adj,
                        turned,
                        sequence,
                        before,
                        label_before,
                        marks,
                        names,
                        pos as int,
                        path,
                        next,
                    );
                    assert(frame_nodes(stack@) =~= path);
                    assert(frame_progress(stack@) =~= next.update(top as int, k + 1));
                }
            }
        } else {
            proof {
                lemma_grow_finish(
                    adj,
                    turned,
                    sequence,
                    before,
                    label_before,
                    marks,
                    names,
                    pos as int,
                    path,
                    next,
                );
            }
            stack.pop();
            proof {
                assert(frame_nodes(stack@) =~= path.drop_last());
                assert(frame_progress(stack@) =~= next.drop_last());
            }
        }
    }
    proof {
        assert(frame_nodes(stack@) =~= Seq::<int>::empty());
        assert(frame_progress(stack@) =~= Seq::<int>::empty());
        lemma_grow_done(
            adj,
            turned,
            sequence,
            before,
            label_before,
            assigned@,
            ints(label@),
            pos as int,
        );
    }
}

/// The second pass. `back` is the reverse of the graph `adj`, and `order`
/// is the order in which the first pass finished the nodes of `adj`. Each
/// node gets as its label a node of its strongly connected component, the
/// same for all nodes of the component.
pub(crate) fn assign_components(
    Ghost(adj): Ghost<Seq<Seq<int>>>,
    back: &Vec<Vec<usize>>,
    order: &Vec<usize>,
) -> (label: Vec<usize>)
    requires
        closed_lists(lists(back@)),
        is_reverse(adj, lists(back@)),
        lists_each_node_once(ints(order@), adj.len() as int),
        finish_ordered(adj, ints(order@)),
    ensures
        label.len() == adj.len(),
        forall|x: int| 0 <= x < adj.len() ==> mutually_reachable(adj, x, #[trigger] label[x] as int),
        forall|a: int, b: int|
            0 <= a < adj.len() && #[trigger] mutually_reachable(adj, a, b) ==> label[a] == label[b],
{
    let n = order.len();
    let ghost sequence = ints(order@);
    let mut assigned: Vec<bool> = Vec::new();
    let mut label: Vec<usize> = Vec::new();
    let mut i: usize = 0;
    while i < n
        invariant
            i <= n,
            assigned.len() == i,
            label.len() == i,
            forall|x: int| 0 <= x < i ==> !assigned[x],
        decreases n - i,
    {
        assigned.push(false);
        label.push(0);
        i += 1;
    }
    let mut todo: usize = n;
    while todo > 0
        invariant
            n == order.len(),
            sequence == ints(order@),
            closed_lists(lists(back@)),
            is_reverse(adj, lists(back@)),
            lists_each_node_once(sequence, adj.len() as int),
            finish_ordered(adj, sequence),
            labelled(adj, sequence, assigned@, ints(label@), todo as int),
        decreases todo,
    {
        todo -= 1;
        let root = order[todo];
        assert(sequence[todo as int] == root);
        if !assigned[root] {
            grow(Ghost(adj), back, order, todo, &mut assigned, &mut label);
        }
    }
    proof {
        assert forall|x: int| 0 <= x < adj.len() implies mutually_reachable(
            adj,
            x,
            #[trigger] label[x] as int,
        ) by {
            assert(sequence.contains(x));
            let j = choose|j: int| 0 <= j < sequence.len() && sequence[j] == x;
            assert(assigned[sequence[j]]);
            assert(ints(label@)[x] == label[x]);
        }
        assert forall|a: int, b: int|
            0 <= a < adj.len() && #[trigger] mutually_reachable(adj, a, b) implies label[a]
            == label[b] by {
            assert(sequence.contains(a));
            let j = choose|j: int| 0 <= j < sequence.len() && sequence[j] == a;
            assert(assigned[sequence[j]]);
            lemma_reaches_in_range(adj, a, b);
            assert(ints(label@)[a] == label[a]);
            assert(ints(label@)[b] == label[b]);
        }
    }
    label
}

/// `y` is the least node of the strongly connected component of `x`.
pub open spec fn least_of_component(adj: Seq<Seq<int>>, x: int, y: int) -> bool {
    &&& mutually_reachable(adj, x, y)
    &&& forall|z: int| 0 <= z < y ==> !#[trigger] mutually_reachable(adj, x, z)
}

/// How many of the nodes below `k` lie in the strongly connected component of `x`.
pub open spec fn related_below(adj: Seq<Seq<int>>, x: int, k: int) -> nat
    decreases k,
{
    if k <= 0 {
        0
    } else {
        related_below(adj, x, k - 1) + if mutually_reachable(adj, x, k - 1) {
            1nat
        } else {
            0nat
        }
    }
}

/// The number of nodes of the strongly connected component of `x`.
pub open spec fn component_size(adj: Seq<Seq<int>>, x: int) -> nat {
    related_below(adj, x, adj.len() as int)
}

/// `a` is the first node, in the order of the nodes, whose strongly
/// connected component is as large as any.
pub open spec fn leads(adj: Seq<Seq<int>>, a: int) -> bool {
    &&& 0 <= a < adj.len()
    &&& forall|y: int|
        0 <= y < adj.len() ==> #[trigger] component_size(adj, y) <= component_size(adj, a)
    &&& forall|y: int| 0 <= y < a ==> #[trigger] component_size(adj, y) < component_size(adj, a)
}

/// `x` lies in the largest strongly connected component; among several
/// of the largest size, in the one that holds the least node.
pub open spec fn in_largest(adj: Seq<Seq<int>>, x: int) -> bool {
    exists|a: int| leads(adj, a) && #[trigger] mutually_reachable(adj, a, x)
}

/// How many of the first `k` labels are `c`.
pub open spec fn labelled_below(label: Seq<int>, c: int, k: int) -> nat
    decreases k,
{
    if k <= 0 {
        0
    } else {
        labelled_below(label, c, k - 1) + if label[k - 1] == c {
            1nat
        } else {
            0nat
        }
    }
}

proof fn lemma_labelled_below_bound(label: Seq<int>, c: int, k: int)
    ensures
        labelled_below(label, c, k) <= if k <= 0 {
            0
        } else {
            k
        },
    decreases k,
{
    if k > 0 {
        lemma_labelled_below_bound(label, c, k - 1);
    }
}

/// Where the labels tell the components apart, counting a label counts a component.
proof fn lemma_labelled_is_related(adj: Seq<Seq<int>>, label: Seq<int>, x: int, k: int)
    requires
        label.len() == adj.len(),
        0 <= x < adj.len(),
        k <= adj.len(),
        forall|y: int| 0 <= y < adj.len() ==> least_of_component(adj, y, #[trigger] label[y]),
    ensures
        labelled_below(label, label[x], k) == related_below(adj, x, k),
    decreases k,
{
    if k > 0 {
        lemma_labelled_is_related(adj, label, x, k - 1);
        let z = k - 1;
        lemma_same_label(adj, label, x, z);
    }
}

/// Two nodes have the same least node of their component exactly if they
/// lie in the same component.
proof fn lemma_same_label(adj: Seq<Seq<int>>, label: Seq<int>, x: int, z: int)
    requires
        label.len() == adj.len(),
        0 <= x < adj.len(),
        0 <= z < adj.len(),
        forall|y: int| 0 <= y < adj.len() ==> least_of_component(adj, y, #[trigger] label[y]),
    ensures
        label[z] == label[x] <==> mutually_reachable(adj, x, z),
{
    assert(least_of_component(adj, x, label[x]));
    assert(least_of_component(adj, z, label[z]));
    if label[z] == label[x] {
        lemma_mutual_transitive(adj, x, label[x], z);
    }
    if mutually_reachable(adj, x, z) {
        lemma_mutual_transitive(adj, z, x, label[x]);
        lemma_mutual_transitive(adj, x, z, label[z]);
        lemma_reaches_in_range(adj, x, label[x]);
        lemma_reaches_in_range(adj, z, label[z]);
        if label[x] < label[z] {
            assert(mutually_reachable(adj, z, label[x]));
        } else if label[z] < label[x] {
            assert(mutually_reachable(adj, x, label[z]));
        }
    }
}

/// The strongly connected components of the graph `adj`, whose reverse is
/// `back`: each node is labelled with the least node of its component.
pub fn components(adj: &Vec<Vec<usize>>, back: &Vec<Vec<usize>>) -> (label: Vec<usize>)
    requires
        closed_lists(lists(adj@)),
        closed_lists(lists(back@)),
        is_reverse(lists(adj@), lists(back@)),
    ensures
        label.len() == adj.len(),
        forall|x: int|
            0 <= x < adj.len() ==> least_of_component(lists(adj@), x, #[trigger] label[x] as int),
{
    let order = finish_order(adj);
    least_labels(Ghost(lists(adj@)), back, &order)
}

/// The second pass, with the labels made independent of the traversal:
/// each node is labelled with the least node of its component.
pub(crate) fn least_labels(
    Ghost(graph): Ghost<Seq<Seq<int>>>,
    back: &Vec<Vec<usize>>,
    order: &Vec<usize>,
) -> (label: Vec<usize>)
    requires
        closed_lists(lists(back@)),
        is_reverse(graph, lists(back@)),
        lists_each_node_once(ints(order@), graph.len() as int),
        finish_ordered(graph, ints(order@)),
    ensures
        label.len() == graph.len(),
        forall|x: int|
            0 <= x < graph.len() ==> least_of_component(graph, x, #[trigger] label[x] as int),
{
    let n = order.len();
    let root = assign_components(Ghost(graph), back, order);
    let mut least: Vec<usize> = Vec::new();
    let mut i: usize = 0;
    while i < n
        invariant
            i <= n,
            least.len() == i,
            forall|c: int| 0 <= c < i ==> least[c] == n,
        decreases n - i,
    {
        least.push(n);
        i += 1;
    }
    let mut label: Vec<usize> = Vec::new();
    let mut x: usize = 0;
    while x < n
        invariant
            n == graph.len(),
            x <= n,
            root.len() == n,
            least.len() == n,
            label.len() == x,
            forall|y: int| 0 <= y < n ==> mutually_reachable(graph, y, #[trigger] root[y] as int),
            forall|a: int, b: int|
                0 <= a < n && #[trigger] mutually_reachable(graph, a, b) ==> root[a] == root[b],
            forall|c: int|
                0 <= c < n && #[trigger] least[c] == n ==> forall|y: int|
                    0 <= y < x ==> #[trigger] root[y] != c,
            forall|c: int|
                0 <= c < n && #[trigger] least[c] != n ==> least[c] < x && root[least[c] as int] == c
                    && forall|z: int| 0 <= z < least[c] ==> #[trigger] root[z] != c,
            forall|y: int| 0 <= y < x ==> #[trigger] label[y] == least[root[y] as int] && label[y] < n,
        decreases n - x,
    {
        let c = root[x];
        proof {
            lemma_reaches_in_range(graph, x as int, c as int);
        }
        if least[c] == n {
            least.set(c, x);
        }
        label.push(least[c]);
        x += 1;
    }
    proof {
        assert forall|y: int| 0 <= y < n implies least_of_component(
            graph,
            y,
            #[trigger] label[y] as int,
        ) by {
            let c = root[y] as int;
            let l = label[y] as int;
            lemma_reaches_in_range(graph, y, c);
            assert(least[c] == l);
            assert(mutually_reachable(graph, l, root[l] as int));
            lemma_mutual_transitive(graph, y, c, l);
            assert forall|z: int| 0 <= z < l implies !#[trigger] mutually_reachable(graph, y, z) by {
                if mutually_reachable(graph, y, z) {
                    assert(root[y] == root[z]);
                }
            }
        }
    }
    label
}

/// Marks the nodes of the largest strongly connected component of the
/// graph `adj`, whose reverse is `back`.
pub fn largest_component_members(adj: &Vec<Vec<usize>>, back: &Vec<Vec<usize>>) -> (member: Vec<
    bool,
>)
    requires
        closed_lists(lists(adj@)),
        closed_lists(lists(back@)),
        is_reverse(lists(adj@), lists(back@)),
    ensures
        member.len() == adj.len(),
        forall|x: int| 0 <= x < adj.len() ==> #[trigger] member[x] == in_largest(lists(adj@), x),
{
    let label = components(adj, back);
    largest_among(Ghost(lists(adj@)), &label)
}

/// Marks the nodes of the largest strongly connected component, given
/// for each node the least node of its component.
pub(crate) fn largest_among(Ghost(graph): Ghost<Seq<Seq<int>>>, label: &Vec<usize>) -> (member: Vec<
    bool,
>)
    requires
        label.len() == graph.len(),
        forall|x: int|
            0 <= x < graph.len() ==> least_of_component(graph, x, #[trigger] label[x] as int),
    ensures
        member.len() == graph.len(),
        forall|x: int| 0 <= x < graph.len() ==> #[trigger] member[x] == in_largest(graph, x),
{
    let n = label.len();
    let ghost names = ints(label@);
    assert forall|y: int| 0 <= y < n implies least_of_component(graph, y, #[trigger] names[y]) by {
        assert(names[y] == label[y]);
    }
    // the size of each component, kept at its label
    let mut size: Vec<usize> = Vec::new();
    let mut i: usize = 0;
    while i < n
        invariant
            i <= n,
            size.len() == i,
            forall|c: int| 0 <= c < i ==> size[c] == 0,
        decreases n - i,
    {
        size.push(0);
        i += 1;
    }
    let mut x: usize = 0;
    while x < n
        invariant
            n == graph.len(),
            x <= n,
            label.len() == n,
            names == ints(label@),
            size.len() == n,
            forall|y: int| 0 <= y < n ==> least_of_component(graph, y, #[trigger] names[y]),
            forall|c: int| 0 <= c < n ==> #[trigger] size[c] == labelled_below(names, c, x as int),
        decreases n - x,
    {
        let c = label[x];
        proof {
            assert(names[x as int] == c);
            assert(least_of_component(graph, x as int, names[x as int]));
            lemma_reaches_in_range(graph, x as int, c as int);
            lemma_labelled_below_bound(names, c as int, x as int);
        }
        let count = size[c];
        size.set(c, count + 1);
        x += 1;
    }
    // the first node whose component is as large as any
    let mut best: usize = 0;
    let mut best_size: usize = 0;
    let mut y: usize = 0;
    while y < n
        invariant
            n == graph.len(),
            y <= n,
            label.len() == n,
            names == ints(label@),
            size.len() == n,
            forall|z: int| 0 <= z < n ==> least_of_component(graph, z, #[trigger] names[z]),
            forall|c: int| 0 <= c < n ==> #[trigger] size[c] == labelled_below(names, c, n as int),
            y > 0 ==> best < y && best_size == component_size(graph, best as int),
            forall|z: int| 0 <= z < y ==> #[trigger] component_size(graph, z) <= best_size,
            forall|z: int| 0 <= z < best ==> #[trigger] component_size(graph, z) < best_size,
        decreases n - y,
    {
        let c = label[y];
        proof {
            assert(names[y as int] == c);
            assert(least_of_component(graph, y as int, names[y as int]));
            lemma_reaches_in_range(graph, y as int, c as int);
            lemma_labelled_is_related(graph, names, y as int, n as int);
        }
        let s = size[c];
        if y == 0 || s > best_size {
            best = y;
            best_size = s;
        }
        y += 1;
    }
    let mut member: Vec<bool> = Vec::new();
    let mut x: usize = 0;
    while x < n
        invariant
            n == graph.len(),
            x <= n,
            label.len() == n,
            names == ints(label@),
            member.len() == x,
            n > 0 ==> best < n && leads(graph, best as int),
            forall|z: int| 0 <= z < n ==> least_of_component(graph, z, #[trigger] names[z]),
            forall|z: int| 0 <= z < x ==> #[trigger] member[z] == in_largest(graph, z),
        decreases n - x,
    {
        let inside = label[x] == label[best];
        proof {
            assert(names[x as int] == label[x as int] && names[best as int] == label[best as int]);
            lemma_same_label(graph, names, best as int, x as int);
            if in_largest(graph, x as int) {
                let a = choose|a: int| leads(graph, a) && #[trigger] mutually_reachable(graph, a, x as int);
                assert(component_size(graph, a) <= component_size(graph, best as int));
                assert(component_size(graph, best as int) <= component_size(graph, a));
                assert(a == best);
            }
        }
        member.push(inside);
        x += 1;
    }
    member
}

} // verus!
