//! The largest strongly connected component of a graph.
//!
//! An edge can be travelled from its source to its target, and back if it
//! is bidirectional. The component analysis works on the successor lists
//! that this gives; the result is the part of the graph that the largest
//! component spans, with nodes and edges numbered anew in their old order.

use crate::digraph::{
    arc, closed_lists, is_path, is_reverse, lemma_mutual_transitive, lemma_path_in_range,
    lemma_reaches_in_range, lemma_subpath, mutually_reachable, reaches, strongly_connected,
};
use crate::graph::{
    adjacency, connects, edge_numbers, lemma_adjacency_contains, lemma_adjacency_in_range,
    node_numbers, other_end, EdgeModel, Graph, GraphEdgeId, GraphModel, GraphNodeId,
};
use crate::graph_data::{EdgeData, NodeData};
use crate::scc::{
    component_size, finish_order, finish_ordered, in_largest, ints, largest_among, leads,
    least_labels, least_of_component, lists, lists_each_node_once, post_order, related_below,
};
use vstd::prelude::*;

verus! {

/// The nodes that the edges of `list` lead to from node `i`.
pub open spec fn neighbours<T>(edges: Seq<EdgeModel<T>>, list: Seq<int>, i: int) -> Seq<int> {
    Seq::new(list.len(), |k: int| other_end(edges[list[k]], i))
}

/// The edges, each turned round.
pub open spec fn flipped<T>(edges: Seq<EdgeModel<T>>) -> Seq<EdgeModel<T>> {
    Seq::new(
        edges.len(),
        |j: int|
            EdgeModel {
                s: edges[j].t,
                t: edges[j].s,
                bidirectional: edges[j].bidirectional,
                data: edges[j].data,
            },
    )
}

/// For each node, the nodes that its adjacency list leads to.
pub open spec fn successors<N, E>(g: GraphModel<N, E>) -> Seq<Seq<int>> {
    Seq::new(g.nodes.len(), |i: int| neighbours(g.edges, adjacency(g.edges, i), i))
}

/// For each node, the nodes from which an edge leads to it.
pub open spec fn predecessors<N, E>(g: GraphModel<N, E>) -> Seq<Seq<int>> {
    Seq::new(g.nodes.len(), |i: int| neighbours(g.edges, adjacency(flipped(g.edges), i), i))
}

/// The successor lists hold exactly the arcs that the edges give.
pub proof fn lemma_successors_arc<N, E>(g: GraphModel<N, E>, u: int, w: int)
    requires
        g.well_formed(),
    ensures
        arc(successors(g), u, w) <==> g.has_arc(u, w),
{
    let graph = successors(g);
    if arc(graph, u, w) {
        let list = adjacency(g.edges, u);
        let k = choose|k: int| 0 <= k < graph[u].len() && graph[u][k] == w;
        let j = list[k];
        lemma_adjacency_in_range(g.edges, u);
        assert(list.contains(j));
        lemma_adjacency_contains(g.edges, u, j);
        assert(connects(g.edges[j], u, w));
    }
    if g.has_arc(u, w) {
        let j = choose|j: int| 0 <= j < g.edges.len() && connects(#[trigger] g.edges[j], u, w);
        let list = adjacency(g.edges, u);
        lemma_adjacency_contains(g.edges, u, j);
        let k = choose|k: int| 0 <= k < list.len() && list[k] == j;
        assert(graph[u][k] == w);
    }
}

/// The predecessor lists hold exactly the arcs that the edges give, turned round.
pub proof fn lemma_predecessors_arc<N, E>(g: GraphModel<N, E>, u: int, w: int)
    requires
        g.well_formed(),
    ensures
        arc(predecessors(g), w, u) <==> g.has_arc(u, w),
{
    let graph = predecessors(g);
    let turned = flipped(g.edges);
    if arc(graph, w, u) {
        let list = adjacency(turned, w);
        let k = choose|k: int| 0 <= k < graph[w].len() && graph[w][k] == u;
        let j = list[k];
        lemma_adjacency_in_range(turned, w);
        assert(list.contains(j));
        lemma_adjacency_contains(turned, w, j);
        assert(connects(g.edges[j], u, w));
    }
    if g.has_arc(u, w) {
        let j = choose|j: int| 0 <= j < g.edges.len() && connects(#[trigger] g.edges[j], u, w);
        let list = adjacency(turned, w);
        lemma_adjacency_contains(turned, w, j);
        let k = choose|k: int| 0 <= k < list.len() && list[k] == j;
        assert(graph[w][k] == u);
    }
}

/// Successor and predecessor lists name nodes of the graph only, and each
/// is the reverse of the other.
pub proof fn lemma_lists_of_graph<N, E>(g: GraphModel<N, E>)
    requires
        g.well_formed(),
    ensures
        closed_lists(successors(g)),
        closed_lists(predecessors(g)),
        is_reverse(successors(g), predecessors(g)),
{
    let forth = successors(g);
    let back = predecessors(g);
    assert forall|u: int, k: int| 0 <= u < forth.len() && 0 <= k < forth[u].len() implies 0
        <= #[trigger] forth[u][k] < forth.len() by {
        lemma_adjacency_in_range(g.edges, u);
        let j = adjacency(g.edges, u)[k];
        assert(0 <= g.edges[j].s < g.nodes.len());
    }
    assert forall|u: int, k: int| 0 <= u < back.len() && 0 <= k < back[u].len() implies 0
        <= #[trigger] back[u][k] < back.len() by {
        lemma_adjacency_in_range(flipped(g.edges), u);
        let j = adjacency(flipped(g.edges), u)[k];
        assert(0 <= g.edges[j].s < g.nodes.len());
    }
    assert forall|u: int, w: int| #[trigger] arc(back, w, u) <==> arc(forth, u, w) by {
        lemma_successors_arc(g, u, w);
        lemma_predecessors_arc(g, u, w);
    }
}

/// The nodes that the edges of `list` lead to from node `i`.
fn neighbour_list<N, E>(graph: &Graph<N, E>, list: &Vec<GraphEdgeId>, i: usize) -> (found: Vec<usize>)
    requires
        graph.wf(),
        forall|k: int| 0 <= k < list.len() ==> (#[trigger] list[k]).0 < graph.edges.len(),
    ensures
        ints(found@) == neighbours(graph@.edges, edge_numbers(list@), i as int),
{
    let mut found: Vec<usize> = Vec::new();
    let mut k: usize = 0;
    while k < list.len()
        invariant
            k <= list.len(),
            found.len() == k,
            forall|k: int| 0 <= k < list.len() ==> (#[trigger] list[k]).0 < graph.edges.len(),
            forall|h: int|
                0 <= h < k ==> #[trigger] found[h] == other_end(
                    graph@.edges[list[h].0 as int],
                    i as int,
                ),
        decreases list.len() - k,
    {
        let edge = graph.get_edge(&list[k]);
        let node = if edge.s.0 as usize == i {
            edge.t.0
        } else {
            edge.s.0
        };
        found.push(node as usize);
        k += 1;
    }
    assert(ints(found@) =~= neighbours(graph@.edges, edge_numbers(list@), i as int));
    found
}

/// For each node, the nodes that its adjacency list leads to.
pub fn successor_lists<N, E>(graph: &Graph<N, E>) -> (forth: Vec<Vec<usize>>)
    requires
        graph.wf(),
    ensures
        lists(forth@) == successors(graph@),
{
    let mut forth: Vec<Vec<usize>> = Vec::new();
    let mut i: usize = 0;
    while i < graph.nodes.len()
        invariant
            graph.wf(),
            i <= graph.nodes.len(),
            forth.len() == i,
            forall|h: int|
                0 <= h < i ==> ints(#[trigger] forth[h]@) == neighbours(
                    graph@.edges,
                    adjacency(graph@.edges, h),
                    h,
                ),
        decreases graph.nodes.len() - i,
    {
        let list = graph.out_edges(&graph.nodes[i].id);
        proof {
            assert(graph.nodes[i as int].edge_numbers() == adjacency(graph@.edges, i as int));
            lemma_adjacency_in_range(graph@.edges, i as int);
            assert forall|k: int| 0 <= k < list.len() implies (#[trigger] list[k]).0
                < graph.edges.len() by {
                assert(edge_numbers(list@)[k] == list[k].0);
            }
        }
        let found = neighbour_list(graph, list, i);
        forth.push(found);
        i += 1;
    }
    assert(lists(forth@) =~= successors(graph@));
    forth
}

/// For each node, the ids of the edges that lead to it: those that end
/// at it, and the bidirectional ones that start at it, in the order of
/// their ids.
pub fn incoming_edges<N, E>(graph: &Graph<N, E>) -> (in_edges: Vec<Vec<GraphEdgeId>>)
    requires
        graph.wf(),
    ensures
        in_edges.len() == graph.nodes.len(),
        forall|i: int|
            0 <= i < in_edges.len() ==> edge_numbers(#[trigger] in_edges[i]@) == adjacency(
                flipped(graph@.edges),
                i,
            ),
{
    let ghost turned = flipped(graph@.edges);
    let mut in_edges: Vec<Vec<GraphEdgeId>> = Vec::new();
    let mut i: usize = 0;
    while i < graph.nodes.len()
        invariant
            i <= graph.nodes.len(),
            in_edges.len() == i,
            forall|h: int| 0 <= h < i ==> (#[trigger] in_edges[h]).len() == 0,
        decreases graph.nodes.len() - i,
    {
        in_edges.push(Vec::new());
        i += 1;
    }
    assert forall|i: int| 0 <= i < in_edges.len() implies edge_numbers(#[trigger] in_edges[i]@)
        == adjacency(turned.take(0), i) by {
        assert(edge_numbers(in_edges[i]@) =~= Seq::<int>::empty());
    }
    let mut j: usize = 0;
    while j < graph.edges.len()
        invariant
            graph.wf(),
            turned == flipped(graph@.edges),
            j <= graph.edges.len(),
            in_edges.len() == graph.nodes.len(),
            forall|i: int|
                0 <= i < in_edges.len() ==> edge_numbers(#[trigger] in_edges[i]@) == adjacency(
                    turned.take(j as int),
                    i,
                ),
        decreases graph.edges.len() - j,
    {
        let edge = &graph.edges[j];
        let ghost before = in_edges@;
        proof {
            assert(graph@.edges[j as int] == edge.model());
            assert(0 <= graph@.edges[j as int].s < graph.nodes.len());
            assert(edge.id.0 == j);
            assert(turned.take(j + 1).drop_last() =~= turned.take(j as int));
        }
        in_edges[edge.t.0 as usize].push(edge.id);
        if edge.bidirectional {
            in_edges[edge.s.0 as usize].push(edge.id);
        }
        proof {
            assert forall|i: int| 0 <= i < in_edges.len() implies edge_numbers(
                #[trigger] in_edges[i]@,
            ) == adjacency(turned.take(j + 1), i) by {
                assert(edge_numbers(before[i]@) == adjacency(turned.take(j as int), i));
                assert(edge_numbers(in_edges[i]@) =~= edge_numbers(before[i]@)
                    + crate::graph::adjacency_entries(turned[j as int], j as int, i));
            }
        }
        j += 1;
    }
    assert(turned.take(graph.edges.len() as int) =~= turned);
    in_edges
}

/// For each node, the nodes from which an edge leads to it.
pub fn predecessor_lists<N, E>(graph: &Graph<N, E>, in_edges: &Vec<Vec<GraphEdgeId>>) -> (back: Vec<
    Vec<usize>,
>)
    requires
        graph.wf(),
        in_edges.len() == graph.nodes.len(),
        forall|i: int|
            0 <= i < in_edges.len() ==> edge_numbers(#[trigger] in_edges[i]@) == adjacency(
                flipped(graph@.edges),
                i,
            ),
    ensures
        lists(back@) == predecessors(graph@),
{
    let mut back: Vec<Vec<usize>> = Vec::new();
    let mut i: usize = 0;
    while i < in_edges.len()
        invariant
            graph.wf(),
            in_edges.len() == graph.nodes.len(),
            forall|i: int|
                0 <= i < in_edges.len() ==> edge_numbers(#[trigger] in_edges[i]@) == adjacency(
                    flipped(graph@.edges),
                    i,
                ),
            i <= in_edges.len(),
            back.len() == i,
            forall|h: int|
                0 <= h < i ==> ints(#[trigger] back[h]@) == neighbours(
                    graph@.edges,
                    adjacency(flipped(graph@.edges), h),
                    h,
                ),
        decreases in_edges.len() - i,
    {
        let list = &in_edges[i];
        proof {
            lemma_adjacency_in_range(flipped(graph@.edges), i as int);
            assert forall|k: int| 0 <= k < list.len() implies (#[trigger] list[k]).0
                < graph.edges.len() by {
                assert(edge_numbers(list@)[k] == list[k].0);
            }
        }
        let found = neighbour_list(graph, list, i);
        back.push(found);
        i += 1;
    }
    assert(lists(back@) =~= predecessors(graph@));
    back
}

/// The first half of the component analysis: the order in which a
/// depth-first traversal finishes the nodes, and for each node the edges
/// that lead to it. The traversal takes the roots in the order of their
/// ids and follows the adjacency list of each node in its order.
pub fn kosaraju_step1_2<S, T>(graph: &Graph<S, T>) -> (result: (
    Vec<GraphNodeId>,
    Vec<Vec<GraphEdgeId>>,
))
    requires
        graph.wf(),
    ensures
        node_numbers(result.0@) == post_order(successors(graph@)),
        lists_each_node_once(node_numbers(result.0@), graph.nodes.len() as int),
        finish_ordered(successors(graph@), node_numbers(result.0@)),
        result.1.len() == graph.nodes.len(),
        forall|i: int|
            0 <= i < result.1.len() ==> edge_numbers(#[trigger] result.1[i]@) == adjacency(
                flipped(graph@.edges),
                i,
            ),
{
    let forth = successor_lists(graph);
    proof {
        lemma_lists_of_graph(graph@);
    }
    let order = finish_order(&forth);
    let mut ordering: Vec<GraphNodeId> = Vec::new();
    let mut i: usize = 0;
    while i < order.len()
        invariant
            i <= order.len(),
            ordering.len() == i,
            order.len() <= u32::MAX,
            lists_each_node_once(ints(order@), order.len() as int),
            forall|h: int| 0 <= h < i ==> (#[trigger] ordering[h]).0 == order[h],
        decreases order.len() - i,
    {
        assert(0 <= ints(order@)[i as int] < order.len());
        ordering.push(GraphNodeId(order[i] as u32));
        i += 1;
    }
    assert(node_numbers(ordering@) =~= ints(order@));
    let in_edges = incoming_edges(graph);
    (ordering, in_edges)
}

/// The strongly connected components of the graph: each node is
/// labelled with the least node of its component.
pub fn kosaraju<S, T>(graph: &Graph<S, T>) -> (label: Vec<GraphNodeId>)
    requires
        graph.wf(),
    ensures
        label.len() == graph.nodes.len(),
        forall|x: int|
            0 <= x < label.len() ==> least_of_component(
                successors(graph@),
                x,
                (#[trigger] label[x]).0 as int,
            ),
{
    let ghost forth = successors(graph@);
    let (ordering, in_edges) = kosaraju_step1_2(graph);
    let back = predecessor_lists(graph, &in_edges);
    proof {
        lemma_lists_of_graph(graph@);
    }
    let mut order: Vec<usize> = Vec::new();
    let mut i: usize = 0;
    while i < ordering.len()
        invariant
            i <= ordering.len(),
            order.len() == i,
            forall|h: int| 0 <= h < i ==> #[trigger] order[h] == ordering[h].0,
        decreases ordering.len() - i,
    {
        order.push(ordering[i].0 as usize);
        i += 1;
    }
    assert(ints(order@) =~= node_numbers(ordering@));
    let least = least_labels(Ghost(forth), &back, &order);
    let mut label: Vec<GraphNodeId> = Vec::new();
    let mut x: usize = 0;
    while x < least.len()
        invariant
            x <= least.len(),
            label.len() == x,
            least.len() == forth.len(),
            forth.len() <= u32::MAX,
            forall|y: int|
                0 <= y < forth.len() ==> least_of_component(forth, y, #[trigger] least[y] as int),
            forall|y: int| 0 <= y < x ==> (#[trigger] label[y]).0 == least[y],
        decreases least.len() - x,
    {
        proof {
            assert(least_of_component(forth, x as int, least[x as int] as int));
            crate::digraph::lemma_reaches_in_range(forth, x as int, least[x as int] as int);
        }
        label.push(GraphNodeId(least[x] as u32));
        x += 1;
    }
    label
}

/// The nodes of `keep` below `k`, in increasing order.
pub open spec fn kept_below(keep: Set<int>, k: int) -> Seq<int>
    decreases k,
{
    if k <= 0 {
        Seq::<int>::empty()
    } else if keep.contains(k - 1) {
        kept_below(keep, k - 1).push(k - 1)
    } else {
        kept_below(keep, k - 1)
    }
}

/// The number that node `x` has among the nodes of `keep`.
pub open spec fn new_number(keep: Set<int>, x: int) -> int {
    kept_below(keep, x).len() as int
}

/// The edges that join two nodes of `keep`, in their order, between the
/// new numbers of their ends.
pub open spec fn induced_edges<T>(edges: Seq<EdgeModel<T>>, keep: Set<int>) -> Seq<EdgeModel<T>>
    decreases edges.len(),
{
    if edges.len() == 0 {
        Seq::<EdgeModel<T>>::empty()
    } else {
        let rest = induced_edges(edges.drop_last(), keep);
        let e = edges.last();
        if keep.contains(e.s) && keep.contains(e.t) {
            rest.push(
                EdgeModel {
                    s: new_number(keep, e.s),
                    t: new_number(keep, e.t),
                    bidirectional: e.bidirectional,
                    data: e.data,
                },
            )
        } else {
            rest
        }
    }
}

/// The part of the graph that the nodes of `keep` span: these nodes, in
/// their order, and the edges between them, in their order.
pub open spec fn induced<N, E>(g: GraphModel<N, E>, keep: Set<int>) -> GraphModel<N, E> {
    let kept = kept_below(keep, g.nodes.len() as int);
    GraphModel {
        nodes: Seq::new(kept.len(), |i: int| g.nodes[kept[i]]),
        edges: induced_edges(g.edges, keep),
    }
}

/// The nodes of the largest strongly connected component.
pub open spec fn largest_nodes<N, E>(g: GraphModel<N, E>) -> Set<int> {
    Set::new(|x: int| 0 <= x < g.nodes.len() && in_largest(successors(g), x))
}

/// The part of the graph that its largest strongly connected component
/// spans; among several components of the largest size, the one that
/// holds the least node.
pub open spec fn largest_component<N, E>(g: GraphModel<N, E>) -> GraphModel<N, E> {
    induced(g, largest_nodes(g))
}

/// The kept nodes below `k` are nodes below `k`, in increasing order.
pub proof fn lemma_kept_below(keep: Set<int>, k: int)
    ensures
        kept_below(keep, k).len() <= if k <= 0 {
            0
        } else {
            k
        },
        forall|i: int|
            0 <= i < kept_below(keep, k).len() ==> 0 <= #[trigger] kept_below(keep, k)[i] < k
                && keep.contains(kept_below(keep, k)[i]),
        forall|i: int, j: int|
            0 <= i < j < kept_below(keep, k).len() ==> kept_below(keep, k)[i] < kept_below(
                keep,
                k,
            )[j],
    decreases k,
{
    if k > 0 {
        lemma_kept_below(keep, k - 1);
    }
}

/// A kept node stands at its new number, and the nodes below a bound are
/// the first of the nodes below a larger bound.
pub proof fn lemma_new_number(keep: Set<int>, x: int, k: int)
    requires
        0 <= x < k,
    ensures
        kept_below(keep, x).len() <= kept_below(keep, k).len(),
        keep.contains(x) ==> new_number(keep, x) < kept_below(keep, k).len() && kept_below(
            keep,
            k,
        )[new_number(keep, x)] == x,
    decreases k,
{
    if x < k - 1 {
        lemma_new_number(keep, x, k - 1);
    }
}

/// The subgraph that the marked nodes span.
pub fn subgraph(graph: &Graph<NodeData, EdgeData>, member: &Vec<bool>) -> (part: Graph<
    NodeData,
    EdgeData,
>)
    requires
        graph.wf(),
        member.len() == graph.nodes.len(),
    ensures
        part.wf(),
        part@ == induced(graph@, Set::new(|x: int| 0 <= x < member.len() && member[x])),
{
    let ghost keep = Set::new(|x: int| 0 <= x < member.len() && member[x]);
    let n = graph.nodes.len();
    let mut part: Graph<NodeData, EdgeData> = Graph::new();
    let mut number: Vec<u32> = Vec::new();
    let mut x: usize = 0;
    while x < n
        invariant
            graph.wf(),
            n == graph.nodes.len(),
            member.len() == n,
            keep == Set::new(|x: int| 0 <= x < member.len() && member[x]),
            x <= n,
            part.wf(),
            part@.edges.len() == 0,
            number.len() == x,
            part@.nodes.len() == kept_below(keep, x as int).len(),
            part@.nodes.len() <= x,
            forall|i: int|
                0 <= i < part@.nodes.len() ==> #[trigger] part@.nodes[i] == graph@.nodes[kept_below(
                    keep,
                    x as int,
                )[i]],
            forall|y: int| 0 <= y < x ==> #[trigger] number[y] == new_number(keep, y),
        decreases n - x,
    {
        proof {
            lemma_kept_below(keep, x as int);
        }
        number.push(part.nodes.len() as u32);
        if member[x] {
            let ghost before = part@.nodes;
            part.add_node(graph.nodes[x].data);
            proof {
                assert(keep.contains(x as int));
                assert(graph@.nodes[x as int] == graph.nodes[x as int].data);
                assert forall|i: int| 0 <= i < part@.nodes.len() implies #[trigger] part@.nodes[i]
                    == graph@.nodes[kept_below(keep, x + 1)[i]] by {
                    if i < before.len() {
                        assert(part@.nodes[i] == before[i]);
                    }
                }
            }
        } else {
            assert(!keep.contains(x as int));
        }
        x += 1;
    }
    let ghost kept = kept_below(keep, n as int);
    let mut j: usize = 0;
    while j < graph.edges.len()
        invariant
            graph.wf(),
            n == graph.nodes.len(),
            member.len() == n,
            keep == Set::new(|x: int| 0 <= x < member.len() && member[x]),
            kept == kept_below(keep, n as int),
            j <= graph.edges.len(),
            part.wf(),
            number.len() == n,
            part@.nodes.len() == kept.len(),
            forall|i: int|
                0 <= i < part@.nodes.len() ==> #[trigger] part@.nodes[i] == graph@.nodes[kept[i]],
            forall|y: int| 0 <= y < n ==> #[trigger] number[y] == new_number(keep, y),
            part@.edges == induced_edges(graph@.edges.take(j as int), keep),
            part@.edges.len() <= j,
        decreases graph.edges.len() - j,
    {
        let edge = &graph.edges[j];
        proof {
            assert(graph@.edges[j as int] == edge.model());
            assert(0 <= graph@.edges[j as int].s < n);
            assert(graph@.edges.take(j + 1).drop_last() =~= graph@.edges.take(j as int));
            assert(graph@.edges.take(j + 1).last() == edge.model());
            lemma_new_number(keep, edge.s.0 as int, n as int);
            lemma_new_number(keep, edge.t.0 as int, n as int);
        }
        if member[edge.s.0 as usize] && member[edge.t.0 as usize] {
            let s = GraphNodeId(number[edge.s.0 as usize]);
            let t = GraphNodeId(number[edge.t.0 as usize]);
            part.add_edge(s, t, edge.data.duplicate(), edge.bidirectional);
        }
        j += 1;
    }
    proof {
        assert(graph@.edges.take(graph.edges.len() as int) =~= graph@.edges);
        assert(part@.nodes =~= induced(graph@, keep).nodes);
    }
    part
}

/// The largest strongly connected component of the graph, as a graph of
/// its own: the nodes of the component in their old order, and the edges
/// between them in their old order. Of several components of the largest
/// size it takes the one that holds the least node. A graph without
/// nodes gives a graph without nodes.
pub fn compute_lcc(graph: &Graph<NodeData, EdgeData>) -> (part: Graph<NodeData, EdgeData>)
    requires
        graph.wf(),
    ensures
        part.wf(),
        part@ == largest_component(graph@),
        strongly_connected(successors(part@)),
        graph.nodes.len() == 0 ==> part.nodes.len() == 0 && part.edges.len() == 0,
{
    let ghost forth = successors(graph@);
    let label = kosaraju(graph);
    let mut least: Vec<usize> = Vec::new();
    let mut i: usize = 0;
    while i < label.len()
        invariant
            i <= label.len(),
            least.len() == i,
            forall|h: int| 0 <= h < i ==> #[trigger] least[h] == label[h].0,
        decreases label.len() - i,
    {
        least.push(label[i].0 as usize);
        i += 1;
    }
    let member = largest_among(Ghost(forth), &least);
    let part = subgraph(graph, &member);
    proof {
        assert(Set::new(|x: int| 0 <= x < member.len() && member[x]) =~= largest_nodes(graph@));
        lemma_largest_component_connected(graph@);
        if graph.nodes.len() == 0 {
            assert(graph@.edges.len() == 0) by {
                if graph@.edges.len() > 0 {
                    assert(0 <= graph@.edges[0].s < graph@.nodes.len());
                }
            }
            assert(part@.nodes.len() == 0);
            assert(part@.edges.len() == 0);
        }
    }
    part
}

/// An edge between two kept nodes is an edge of the induced graph,
/// between the new numbers of its ends.
proof fn lemma_induced_edge<T>(edges: Seq<EdgeModel<T>>, keep: Set<int>, j: int) -> (h: int)
    requires
        0 <= j < edges.len(),
        keep.contains(edges[j].s),
        keep.contains(edges[j].t),
    ensures
        0 <= h < induced_edges(edges, keep).len(),
        induced_edges(edges, keep)[h] == (EdgeModel {
            s: new_number(keep, edges[j].s),
            t: new_number(keep, edges[j].t),
            bidirectional: edges[j].bidirectional,
            data: edges[j].data,
        }),
    decreases edges.len(),
{
    let rest = induced_edges(edges.drop_last(), keep);
    if j == edges.len() - 1 {
        rest.len() as int
    } else {
        assert(edges.drop_last()[j] == edges[j]);
        lemma_induced_edge(edges.drop_last(), keep, j)
    }
}

/// Every edge of the induced graph comes from an edge between two kept nodes.
proof fn lemma_induced_edge_origin<T>(edges: Seq<EdgeModel<T>>, keep: Set<int>, h: int) -> (j: int)
    requires
        0 <= h < induced_edges(edges, keep).len(),
    ensures
        0 <= j < edges.len(),
        keep.contains(edges[j].s),
        keep.contains(edges[j].t),
        induced_edges(edges, keep)[h] == (EdgeModel {
            s: new_number(keep, edges[j].s),
            t: new_number(keep, edges[j].t),
            bidirectional: edges[j].bidirectional,
            data: edges[j].data,
        }),
    decreases edges.len(),
{
    let rest = induced_edges(edges.drop_last(), keep);
    if h < rest.len() {
        let j = lemma_induced_edge_origin(edges.drop_last(), keep, h);
        assert(edges.drop_last()[j] == edges[j]);
        j
    } else {
        edges.len() - 1
    }
}

/// The induced graph is well formed.
pub proof fn lemma_induced_well_formed<N, E>(g: GraphModel<N, E>, keep: Set<int>)
    requires
        g.well_formed(),
    ensures
        induced(g, keep).well_formed(),
{
    let part = induced(g, keep);
    assert forall|h: int| 0 <= h < part.edges.len() implies 0 <= (#[trigger] part.edges[h]).s
        < part.nodes.len() && 0 <= part.edges[h].t < part.nodes.len() by {
        let j = lemma_induced_edge_origin(g.edges, keep, h);
        assert(0 <= g.edges[j].s < g.nodes.len());
        lemma_new_number(keep, g.edges[j].s, g.nodes.len() as int);
        lemma_new_number(keep, g.edges[j].t, g.nodes.len() as int);
    }
}

/// A path over kept nodes is, in the new numbers, a path of the induced graph.
proof fn lemma_path_in_part<N, E>(g: GraphModel<N, E>, keep: Set<int>, p: Seq<int>)
    requires
        g.well_formed(),
        is_path(successors(g), p),
        forall|i: int| 0 <= i < p.len() ==> keep.contains(#[trigger] p[i]),
    ensures
        is_path(
            successors(induced(g, keep)),
            Seq::new(p.len(), |i: int| new_number(keep, p[i])),
        ),
{
    let part = induced(g, keep);
    let q = Seq::new(p.len(), |i: int| new_number(keep, p[i]));
    let n = g.nodes.len() as int;
    lemma_induced_well_formed(g, keep);
    assert(keep.contains(p[0]));
    lemma_new_number(keep, p[0], n);
    assert forall|i: int| 0 <= i < q.len() - 1 implies arc(successors(part), #[trigger] q[i], q[i + 1]) by {
        assert(arc(successors(g), p[i], p[i + 1]));
        lemma_successors_arc(g, p[i], p[i + 1]);
        let j = choose|j: int|
            0 <= j < g.edges.len() && connects(#[trigger] g.edges[j], p[i], p[i + 1]);
        assert(keep.contains(p[i]) && keep.contains(p[i + 1]));
        let h = lemma_induced_edge(g.edges, keep, j);
        assert(connects(part.edges[h], q[i], q[i + 1]));
        lemma_successors_arc(part, q[i], q[i + 1]);
    }
}

/// At most one node leads.
proof fn lemma_one_leader(adj: Seq<Seq<int>>, a: int, b: int)
    requires
        leads(adj, a),
        leads(adj, b),
    ensures
        a == b,
{
    assert(component_size(adj, a) <= component_size(adj, b));
    assert(component_size(adj, b) <= component_size(adj, a));
}

/// The result of the component analysis is strongly connected: every
/// node of the largest component can be reached from every other over
/// nodes and edges of the component alone.
pub proof fn lemma_largest_component_connected<N, E>(g: GraphModel<N, E>)
    requires
        g.well_formed(),
    ensures
        largest_component(g).well_formed(),
        strongly_connected(successors(largest_component(g))),
{
    let adj = successors(g);
    let keep = largest_nodes(g);
    let part = largest_component(g);
    let n = g.nodes.len() as int;
    let kept = kept_below(keep, n);
    lemma_induced_well_formed(g, keep);
    lemma_kept_below(keep, n);
    assert forall|u: int, w: int|
        0 <= u < successors(part).len() && 0 <= w < successors(part).len() implies #[trigger] reaches(
        successors(part),
        u,
        w,
    ) by {
        let x = kept[u];
        let y = kept[w];
        assert(keep.contains(x) && keep.contains(y));
        lemma_number_of_kept(keep, n, u);
        lemma_number_of_kept(keep, n, w);
        let a = choose|a: int| leads(adj, a) && #[trigger] mutually_reachable(adj, a, x);
        let b = choose|b: int| leads(adj, b) && #[trigger] mutually_reachable(adj, b, y);
        lemma_one_leader(adj, a, b);
        lemma_mutual_transitive(adj, x, a, y);
        let p = choose|p: Seq<int>| is_path(adj, p) && p[0] == x && #[trigger] p.last() == y;
        assert forall|i: int| 0 <= i < p.len() implies keep.contains(#[trigger] p[i]) by {
            lemma_subpath(adj, p, 0, i);
            lemma_subpath(adj, p, i, p.len() - 1);
            crate::digraph::lemma_reaches_transitive(adj, p[i], y, x);
            lemma_mutual_transitive(adj, a, x, p[i]);
            lemma_path_in_range(adj, p, i);
        }
        lemma_path_in_part(g, keep, p);
        let q = Seq::new(p.len(), |i: int| new_number(keep, p[i]));
        assert(q[0] == u && q.last() == w);
    }
}

/// The kept node at position `i` has the new number `i`.
proof fn lemma_number_of_kept(keep: Set<int>, k: int, i: int)
    requires
        0 <= i < kept_below(keep, k).len(),
    ensures
        new_number(keep, kept_below(keep, k)[i]) == i,
    decreases k,
{
    if k > 0 {
        let before = kept_below(keep, k - 1);
        if i < before.len() {
            lemma_number_of_kept(keep, k - 1, i);
        }
    }
}

/// Where all nodes below `k` are kept, each keeps its number.
proof fn lemma_keep_all(keep: Set<int>, k: int)
    requires
        forall|x: int| 0 <= x < k ==> keep.contains(x),
    ensures
        kept_below(keep, k).len() == if k <= 0 {
            0
        } else {
            k
        },
        forall|i: int| 0 <= i < k ==> #[trigger] kept_below(keep, k)[i] == i,
    decreases k,
{
    if k > 0 {
        lemma_keep_all(keep, k - 1);
    }
}

/// Where the ends of all edges are kept and keep their numbers, the
/// induced edges are the edges.
proof fn lemma_induced_edges_all<T>(edges: Seq<EdgeModel<T>>, keep: Set<int>)
    requires
        forall|j: int|
            0 <= j < edges.len() ==> keep.contains((#[trigger] edges[j]).s) && keep.contains(
                edges[j].t,
            ) && new_number(keep, edges[j].s) == edges[j].s && new_number(keep, edges[j].t)
                == edges[j].t,
    ensures
        induced_edges(edges, keep) == edges,
    decreases edges.len(),
{
    if edges.len() > 0 {
        let before = edges.drop_last();
        assert forall|j: int| 0 <= j < before.len() implies keep.contains((#[trigger] before[j]).s)
            && keep.contains(before[j].t) && new_number(keep, before[j].s) == before[j].s
            && new_number(keep, before[j].t) == before[j].t by {
            assert(before[j] == edges[j]);
        }
        lemma_induced_edges_all(before, keep);
        assert(induced_edges(edges, keep) =~= edges);
    } else {
        assert(induced_edges(edges, keep) =~= edges);
    }
}

/// In a strongly connected graph every component is the whole graph.
proof fn lemma_related_all(adj: Seq<Seq<int>>, x: int, k: int)
    requires
        strongly_connected(adj),
        0 <= x < adj.len(),
        0 <= k <= adj.len(),
    ensures
        related_below(adj, x, k) == k,
    decreases k,
{
    if k > 0 {
        lemma_related_all(adj, x, k - 1);
        assert(reaches(adj, x, k - 1));
        assert(reaches(adj, k - 1, x));
    }
}

/// A strongly connected graph is its own largest component.
pub proof fn lemma_connected_is_whole<N, E>(g: GraphModel<N, E>)
    requires
        g.well_formed(),
        strongly_connected(successors(g)),
    ensures
        largest_component(g) == g,
{
    let adj = successors(g);
    let keep = largest_nodes(g);
    let n = g.nodes.len() as int;
    let part = largest_component(g);
    if n > 0 {
        assert forall|y: int| 0 <= y < n implies #[trigger] component_size(adj, y) == n by {
            lemma_related_all(adj, y, n);
        }
        assert(leads(adj, 0));
        assert forall|x: int| 0 <= x < n implies keep.contains(x) by {
            assert(reaches(adj, 0, x));
            assert(reaches(adj, x, 0));
            assert(mutually_reachable(adj, 0, x));
        }
    }
    lemma_keep_all(keep, n);
    assert forall|j: int| 0 <= j < g.edges.len() implies keep.contains((#[trigger] g.edges[j]).s)
        && keep.contains(g.edges[j].t) && new_number(keep, g.edges[j].s) == g.edges[j].s
        && new_number(keep, g.edges[j].t) == g.edges[j].t by {
        assert(0 <= g.edges[j].s < n);
        lemma_keep_all(keep, g.edges[j].s);
        lemma_keep_all(keep, g.edges[j].t);
    }
    lemma_induced_edges_all(g.edges, keep);
    assert(part.nodes =~= g.nodes);
}

/// The component analysis of its own result changes nothing: the result
/// is its own largest, and only, component.
pub proof fn lemma_largest_component_idempotent<N, E>(g: GraphModel<N, E>)
    requires
        g.well_formed(),
    ensures
        largest_component(largest_component(g)) == largest_component(g),
{
    lemma_largest_component_connected(g);
    lemma_connected_is_whole(largest_component(g));
}

} // verus!
