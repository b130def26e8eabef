//! The graph arena: nodes and edges live in two vectors and refer to each
//! other by dense, zero-based ids.

use crate::graph_data::EdgeDataDescription;
use crate::util::{decimal, decimal_text};
use vstd::prelude::*;
use vstd::string::StringExecFns;

verus! {

/// Handle of a node: its index in `Graph::nodes`.
#[derive(Debug, Copy, Clone, PartialEq, Eq, Structural)]
pub struct GraphNodeId(pub u32);

/// Handle of an edge: its index in `Graph::edges`.
#[derive(Debug, Copy, Clone, PartialEq, Eq, Structural)]
pub struct GraphEdgeId(pub u32);

/// A node of the arena with its payload and its adjacency list.
pub struct GraphNode<T> {
    pub id: GraphNodeId,
    pub data: T,
    /// The adjacency list: the ids of the edges that leave this node.
    pub out_edges: Vec<GraphEdgeId>,
}

/// An edge of the arena from its source `s` to its target `t`, with its payload.
pub struct GraphEdge<T> {
    pub id: GraphEdgeId,
    pub s: GraphNodeId,
    pub t: GraphNodeId,
    pub data: T,
    /// Whether the edge may also be travelled from `t` to `s`.
    pub bidirectional: bool,
}

/// One line of text that describes an edge.
pub trait GraphEdgeDescription {
    /// The text that `description` gives.
    spec fn description_text(&self) -> Seq<char>;

    fn description(&self) -> (line: String)
        ensures
            line@ == self.description_text(),
    ;
}

impl<T: EdgeDataDescription> GraphEdgeDescription for GraphEdge<T> {
    /// The ids of the source and of the target and the description of
    /// the payload, with a blank between them.
    open spec fn description_text(&self) -> Seq<char> {
        decimal_text(self.s.0 as nat) + seq![' '] + decimal_text(self.t.0 as nat) + seq![' ']
            + self.data.description_text()
    }

    fn description(&self) -> (line: String) {
        let mut line = decimal(self.s.0);
        line.push(' ');
        let target = decimal(self.t.0);
        line.append(target.as_str());
        line.push(' ');
        let payload = self.data.description();
        line.append(payload.as_str());
        assert(line@ =~= self.description_text());
        line
    }
}

/// The arena: it owns all nodes and all edges, each at the position that its id names.
pub struct Graph<NodeData, EdgeData> {
    pub nodes: Vec<GraphNode<NodeData>>,
    pub edges: Vec<GraphEdge<EdgeData>>,
}

/// An edge as mathematics sees it.
pub struct EdgeModel<T> {
    pub s: int,
    pub t: int,
    pub bidirectional: bool,
    pub data: T,
}

/// A graph as mathematics sees it: the node payloads in id order and the
/// edges in id order. The adjacency lists are a function of the edges
/// (see [`adjacency`]) and are therefore no part of the model.
pub struct GraphModel<NodeData, EdgeData> {
    pub nodes: Seq<NodeData>,
    pub edges: Seq<EdgeModel<EdgeData>>,
}

/// A list of edge ids as plain numbers.
pub open spec fn edge_numbers(ids: Seq<GraphEdgeId>) -> Seq<int> {
    Seq::new(ids.len(), |k: int| ids[k].0 as int)
}

/// A list of machine numbers as mathematical ones.
pub open spec fn numbers(list: Seq<u32>) -> Seq<int> {
    Seq::new(list.len(), |k: int| list[k] as int)
}

/// A list of node ids as plain numbers.
pub open spec fn node_numbers(ids: Seq<GraphNodeId>) -> Seq<int> {
    Seq::new(ids.len(), |k: int| ids[k].0 as int)
}

/// The node reached when edge `e` is left from node `from`.
pub open spec fn other_end<T>(e: EdgeModel<T>, from: int) -> int {
    if e.s == from {
        e.t
    } else {
        e.s
    }
}

/// Whether edge `e` can be travelled from node `u` to node `w`.
pub open spec fn connects<T>(e: EdgeModel<T>, u: int, w: int) -> bool {
    (e.s == u && e.t == w) || (e.bidirectional && e.t == u && e.s == w)
}

/// What inserting edge number `j` appends to the adjacency list of node `i`.
pub open spec fn adjacency_entries<T>(e: EdgeModel<T>, j: int, i: int) -> Seq<int> {
    let at_source = if e.s == i {
        seq![j]
    } else {
        Seq::<int>::empty()
    };
    if e.bidirectional && e.t == i {
        at_source.push(j)
    } else {
        at_source
    }
}

/// The adjacency list of node `i` in a graph with the given edges: the ids
/// of the edges that start at `i`, and of the bidirectional edges that end
/// at `i`, in insertion order.
pub open spec fn adjacency<T>(edges: Seq<EdgeModel<T>>, i: int) -> Seq<int>
    decreases edges.len(),
{
    if edges.len() == 0 {
        Seq::<int>::empty()
    } else {
        adjacency(edges.drop_last(), i) + adjacency_entries(edges.last(), edges.len() - 1, i)
    }
}

impl<NodeData, EdgeData> GraphModel<NodeData, EdgeData> {
    /// Every edge starts and ends at a node of the graph.
    pub open spec fn well_formed(self) -> bool {
        forall|j: int|
            0 <= j < self.edges.len() ==> 0 <= (#[trigger] self.edges[j]).s < self.nodes.len() && 0
                <= self.edges[j].t < self.nodes.len()
    }

    /// Whether some edge can be travelled from `u` to `w`.
    pub open spec fn has_arc(self, u: int, w: int) -> bool {
        exists|j: int| 0 <= j < self.edges.len() && connects(#[trigger] self.edges[j], u, w)
    }
}

impl<T> GraphNode<T> {
    /// The adjacency list as plain edge numbers.
    pub open spec fn edge_numbers(&self) -> Seq<int> {
        edge_numbers(self.out_edges@)
    }

    /// Appends an edge id to the adjacency list.
    pub fn add_edge(&mut self, id: GraphEdgeId)
        ensures
            final(self).out_edges@ == old(self).out_edges@.push(id),
            final(self).id == old(self).id,
            final(self).data == old(self).data,
    {
        self.out_edges.push(id);
    }

    /// The adjacency list.
    pub fn get_edges(&self) -> (edges: &Vec<GraphEdgeId>)
        ensures
            edges == &self.out_edges,
    {
        &self.out_edges
    }
}

impl<T> GraphEdge<T> {
    /// The edge as mathematics sees it.
    pub open spec fn model(&self) -> EdgeModel<T> {
        EdgeModel {
            s: self.s.0 as int,
            t: self.t.0 as int,
            bidirectional: self.bidirectional,
            data: self.data,
        }
    }
}

impl<NodeData, EdgeData> View for Graph<NodeData, EdgeData> {
    type V = GraphModel<NodeData, EdgeData>;

    open spec fn view(&self) -> GraphModel<NodeData, EdgeData> {
        GraphModel {
            nodes: Seq::new(self.nodes.len() as nat, |i: int| self.nodes[i].data),
            edges: Seq::new(self.edges.len() as nat, |j: int| self.edges[j].model()),
        }
    }
}

impl<NodeData, EdgeData> Graph<NodeData, EdgeData> {
    /// The invariant of the arena: ids are the positions, every edge joins
    /// two nodes of this graph, and every adjacency list is exactly what
    /// the edges prescribe.
    pub open spec fn wf(&self) -> bool {
        &&& self.nodes.len() <= u32::MAX
        &&& self.edges.len() <= u32::MAX
        &&& forall|i: int| 0 <= i < self.nodes.len() ==> (#[trigger] self.nodes[i]).id.0 == i
        &&& forall|j: int| 0 <= j < self.edges.len() ==> (#[trigger] self.edges[j]).id.0 == j
        &&& self@.well_formed()
        &&& forall|i: int|
            0 <= i < self.nodes.len() ==> (#[trigger] self.nodes[i]).edge_numbers() == adjacency(
                self@.edges,
                i,
            )
    }

    /// A graph without nodes and edges.
    pub fn new() -> (g: Self)
        ensures
            g.wf(),
            g.nodes.len() == 0,
            g.edges.len() == 0,
            g@.nodes.len() == 0,
            g@.edges.len() == 0,
    {
        Graph { nodes: Vec::new(), edges: Vec::new() }
    }

    /// Appends a node without edges and returns its id, the number of nodes before the call.
    pub fn add_node(&mut self, node_data: NodeData) -> (id: GraphNodeId)
        requires
            old(self).wf(),
            old(self).nodes.len() < u32::MAX,
        ensures
            final(self).wf(),
            id.0 == old(self).nodes.len(),
            final(self).nodes.len() == old(self).nodes.len() + 1,
            final(self).edges.len() == old(self).edges.len(),
            final(self)@.nodes == old(self)@.nodes.push(node_data),
            final(self)@.edges == old(self)@.edges,
    {
        let node_id = GraphNodeId(self.nodes.len() as u32);
        let new_node = GraphNode { id: node_id, data: node_data, out_edges: Vec::new() };
        proof {
            lemma_adjacency_in_range(self@.edges, self.nodes.len() as int);
            assert(new_node.edge_numbers() =~= Seq::<int>::empty());
        }
        self.nodes.push(new_node);
        proof {
            assert(self@.edges =~= old(self)@.edges);
            assert(self@.nodes =~= old(self)@.nodes.push(node_data));
            assert forall|i: int| 0 <= i < self.nodes.len() implies (#[trigger] self.nodes[i]).edge_numbers()
                == adjacency(self@.edges, i) by {
                if i < old(self).nodes.len() {
                    assert(self.nodes[i] == old(self).nodes[i]);
                }
            }
        }
        node_id
    }

    /// Appends an edge from `s` to `t` and enters it in the adjacency list
    /// of `s`, and in that of `t` too if it is bidirectional.
    pub fn add_edge(
        &mut self,
        s: GraphNodeId,
        t: GraphNodeId,
        edge_data: EdgeData,
        bidirectional: bool,
    )
        requires
            old(self).wf(),
            old(self).edges.len() < u32::MAX,
            s.0 < old(self).nodes.len(),
            t.0 < old(self).nodes.len(),
        ensures
            final(self).wf(),
            final(self).nodes.len() == old(self).nodes.len(),
            final(self).edges.len() == old(self).edges.len() + 1,
            final(self)@.nodes == old(self)@.nodes,
            final(self)@.edges == old(self)@.edges.push(
                EdgeModel { s: s.0 as int, t: t.0 as int, bidirectional, data: edge_data },
            ),
    {
        let edge_index = GraphEdgeId(self.edges.len() as u32);
        let ghost model = EdgeModel { s: s.0 as int, t: t.0 as int, bidirectional, data: edge_data };
        let ghost number = self.edges.len() as int;
        let new_edge = GraphEdge { id: edge_index, s, t, data: edge_data, bidirectional };
        self.edges.push(new_edge);
        self.nodes[s.0 as usize].add_edge(edge_index);
        if bidirectional {
            self.nodes[t.0 as usize].add_edge(edge_index);
        }
        proof {
            assert(self@.nodes =~= old(self)@.nodes);
            assert(self@.edges =~= old(self)@.edges.push(model));
            assert(self@.edges.drop_last() =~= old(self)@.edges);
            assert forall|i: int| 0 <= i < self.nodes.len() implies (#[trigger] self.nodes[i]).edge_numbers()
                == adjacency(self@.edges, i) by {
                let before = old(self).nodes[i].edge_numbers();
                assert(before == adjacency(old(self)@.edges, i));
                assert(self.nodes[i].edge_numbers() =~= before + adjacency_entries(model, number, i));
            }
        }
    }

    /// Whether the graph is well formed. Graphs made by `new`, `add_node`
    /// and `add_edge` are; this is for graphs that were put together by hand.
    pub fn is_well_formed(&self) -> (ok: bool)
        ensures
            ok == self.wf(),
    {
        let n = self.nodes.len();
        let m = self.edges.len();
        if n > u32::MAX as usize || m > u32::MAX as usize {
            return false;
        }
        let mut i: usize = 0;
        while i < n
            invariant
                n == self.nodes.len(),
                i <= n,
                forall|h: int| 0 <= h < i ==> (#[trigger] self.nodes[h]).id.0 == h,
            decreases n - i,
        {
            if self.nodes[i].id.0 as usize != i {
                return false;
            }
            i += 1;
        }
        let mut expected: Vec<Vec<u32>> = Vec::new();
        let mut i: usize = 0;
        while i < n
            invariant
                i <= n,
                expected.len() == i,
                forall|h: int| 0 <= h < i ==> (#[trigger] expected[h]).len() == 0,
            decreases n - i,
        {
            expected.push(Vec::new());
            i += 1;
        }
        assert forall|i: int| 0 <= i < n implies numbers(#[trigger] expected[i]@) == adjacency(
            self@.edges.take(0),
            i,
        ) by {
            assert(numbers(expected[i]@) =~= Seq::<int>::empty());
        }
        let mut j: usize = 0;
        while j < m
            invariant
                n == self.nodes.len(),
                m == self.edges.len(),
                m <= u32::MAX,
                j <= m,
                expected.len() == n,
                forall|h: int|
                    0 <= h < j ==> (#[trigger] self.edges[h]).id.0 == h && self.edges[h].s.0 < n
                        && self.edges[h].t.0 < n,
                forall|i: int|
                    0 <= i < n ==> numbers(#[trigger] expected[i]@) == adjacency(
                        self@.edges.take(j as int),
                        i,
                    ),
            decreases m - j,
        {
            let edge = &self.edges[j];
            if edge.id.0 as usize != j || edge.s.0 as usize >= n || edge.t.0 as usize >= n {
                proof {
                    assert(self@.edges[j as int] == self.edges[j as int].model());
                }
                return false;
            }
            let ghost before = expected@;
            proof {
                assert(self@.edges.take(j + 1).drop_last() =~= self@.edges.take(j as int));
                assert(self@.edges.take(j + 1).last() == edge.model());
            }
            expected[edge.s.0 as usize].push(j as u32);
            if edge.bidirectional {
                expected[edge.t.0 as usize].push(j as u32);
            }
            proof {
                assert forall|i: int| 0 <= i < n implies numbers(#[trigger] expected[i]@)
                    == adjacency(self@.edges.take(j + 1), i) by {
                    assert(numbers(before[i]@) == adjacency(self@.edges.take(j as int), i));
                    assert(numbers(expected[i]@) =~= numbers(before[i]@) + adjacency_entries(
                        edge.model(),
                        j as int,
                        i,
                    ));
                }
            }
            j += 1;
        }
        proof {
            assert(self@.edges.take(m as int) =~= self@.edges);
            assert forall|h: int| 0 <= h < self@.edges.len() implies 0 <= (#[trigger] self@.edges[h]).s
                < self@.nodes.len() && 0 <= self@.edges[h].t < self@.nodes.len() by {
                assert(self.edges[h].s.0 < n);
            }
        }
        let mut i: usize = 0;
        while i < n
            invariant
                n == self.nodes.len(),
                i <= n,
                expected.len() == n,
                forall|i: int|
                    0 <= i < n ==> numbers(#[trigger] expected[i]@) == adjacency(self@.edges, i),
                forall|h: int|
                    0 <= h < i ==> (#[trigger] self.nodes[h]).edge_numbers() == adjacency(
                        self@.edges,
                        h,
                    ),
            decreases n - i,
        {
            let list = &self.nodes[i].out_edges;
            let wanted = &expected[i];
            assert(numbers(expected[i as int]@) == adjacency(self@.edges, i as int));
            if list.len() != wanted.len() {
                assert(self.nodes[i as int].edge_numbers().len() != numbers(wanted@).len());
                return false;
            }
            let mut k: usize = 0;
            while k < list.len()
                invariant
                    k <= list.len(),
                    i < self.nodes.len(),
                    list.len() == wanted.len(),
                    list == &self.nodes[i as int].out_edges,
                    numbers(wanted@) == adjacency(self@.edges, i as int),
                    forall|h: int| 0 <= h < k ==> (#[trigger] list[h]).0 == wanted[h],
                decreases list.len() - k,
            {
                if list[k].0 != wanted[k] {
                    assert(self.nodes[i as int].edge_numbers()[k as int] != numbers(wanted@)[k as int]);
                    return false;
                }
                k += 1;
            }
            assert(self.nodes[i as int].edge_numbers() =~= numbers(wanted@));
            i += 1;
        }
        true
    }

    /// The number of nodes.
    pub fn node_count(&self) -> (n: usize)
        ensures
            n == self@.nodes.len(),
    {
        self.nodes.len()
    }

    /// The number of edges.
    pub fn edge_count(&self) -> (m: usize)
        ensures
            m == self@.edges.len(),
    {
        self.edges.len()
    }

    /// The ids of all nodes, in increasing order.
    pub fn node_indices(&self) -> (ids: Vec<GraphNodeId>)
        requires
            self.wf(),
        ensures
            ids.len() == self.nodes.len(),
            forall|i: int| 0 <= i < ids.len() ==> (#[trigger] ids[i]).0 == i,
    {
        let mut ids: Vec<GraphNodeId> = Vec::new();
        let mut i: usize = 0;
        while i < self.nodes.len()
            invariant
                self.wf(),
                i <= self.nodes.len(),
                ids.len() == i,
                forall|k: int| 0 <= k < i ==> (#[trigger] ids[k]).0 == k,
            decreases self.nodes.len() - i,
        {
            ids.push(self.nodes[i].id);
            i += 1;
        }
        ids
    }

    /// The adjacency list of a node.
    pub fn out_edges(&self, id: &GraphNodeId) -> (edges: &Vec<GraphEdgeId>)
        requires
            id.0 < self.nodes.len(),
        ensures
            edges == &self.nodes[id.0 as int].out_edges,
    {
        self.nodes[id.0 as usize].get_edges()
    }

    /// The edge with the given id.
    pub fn get_edge(&self, id: &GraphEdgeId) -> (edge: &GraphEdge<EdgeData>)
        requires
            id.0 < self.edges.len(),
        ensures
            edge == &self.edges[id.0 as int],
    {
        &self.edges[id.0 as usize]
    }
}

/// Every entry of an adjacency list is the number of an edge, and the list
/// of a position that no edge touches is empty.
pub proof fn lemma_adjacency_in_range<T>(edges: Seq<EdgeModel<T>>, i: int)
    ensures
        forall|k: int|
            0 <= k < adjacency(edges, i).len() ==> 0 <= #[trigger] adjacency(edges, i)[k]
                < edges.len(),
        (forall|j: int| 0 <= j < edges.len() ==> (#[trigger] edges[j]).s != i && edges[j].t != i)
            ==> adjacency(edges, i).len() == 0,
    decreases edges.len(),
{
    if edges.len() > 0 {
        let before = edges.drop_last();
        lemma_adjacency_in_range(before, i);
        assert(forall|j: int| 0 <= j < before.len() ==> #[trigger] before[j] == edges[j]);
        let head = adjacency(before, i);
        let tail = adjacency_entries(edges.last(), edges.len() - 1, i);
        assert forall|k: int| 0 <= k < adjacency(edges, i).len() implies 0 <= #[trigger] adjacency(
            edges,
            i,
        )[k] < edges.len() by {
            if k < head.len() {
                assert(adjacency(edges, i)[k] == head[k]);
            } else {
                assert(adjacency(edges, i)[k] == tail[k - head.len()]);
            }
        }
    }
}

/// The adjacency list of node `i` holds edge `j` exactly if `j` starts at
/// `i`, or is bidirectional and ends at `i`.
pub proof fn lemma_adjacency_contains<T>(edges: Seq<EdgeModel<T>>, i: int, j: int)
    ensures
        adjacency(edges, i).contains(j) <==> 0 <= j < edges.len() && (edges[j].s == i || (
            edges[j].bidirectional && edges[j].t == i)),
    decreases edges.len(),
{
    if edges.len() > 0 {
        let before = edges.drop_last();
        let last = edges.len() - 1;
        lemma_adjacency_contains(before, i, j);
        let head = adjacency(before, i);
        let tail = adjacency_entries(edges.last(), last, i);
        let all = adjacency(edges, i);
        assert(all == head + tail);
        if 0 <= j < last {
            assert(before[j] == edges[j]);
        }
        if all.contains(j) {
            let k = choose|k: int| 0 <= k < all.len() && all[k] == j;
            if k < head.len() {
                assert(head[k] == j);
            } else {
                assert(tail[k - head.len()] == j);
            }
        }
        if head.contains(j) {
            let k = choose|k: int| 0 <= k < head.len() && head[k] == j;
            assert(all[k] == j);
        }
        if j == last && (edges[j].s == i || (edges[j].bidirectional && edges[j].t == i)) {
            assert(tail.len() > 0);
            assert(tail[0] == j);
            assert(all[head.len() as int] == j);
        }
    }
}

/// In a well-formed graph the adjacency list of a node holds the id of
/// an edge exactly if the edge starts at the node, or is bidirectional
/// and ends at it. So both ends of a bidirectional edge list it, and of
/// the ends of any other edge only its source does.
pub proof fn lemma_adjacency_lists<NodeData, EdgeData>(
    g: Graph<NodeData, EdgeData>,
    i: int,
    j: int,
)
    requires
        g.wf(),
        0 <= i < g.nodes.len(),
        0 <= j < g.edges.len(),
    ensures
        g.nodes[i].out_edges@.contains(g.edges[j].id) <==> g.edges[j].s.0 == i || (
        g.edges[j].bidirectional && g.edges[j].t.0 == i),
{
    let list = g.nodes[i].out_edges@;
    let numbers = g.nodes[i].edge_numbers();
    lemma_adjacency_contains(g@.edges, i, j);
    assert(g@.edges[j] == g.edges[j].model());
    if list.contains(g.edges[j].id) {
        let k = choose|k: int| 0 <= k < list.len() && list[k] == g.edges[j].id;
        assert(numbers[k] == j);
    }
    if numbers.contains(j) {
        let k = choose|k: int| 0 <= k < numbers.len() && numbers[k] == j;
        assert(list[k].0 == j);
        assert(list[k] == g.edges[j].id);
    }
}

} // verus!
