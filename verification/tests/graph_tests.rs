use osm_road_graph::graph::{Graph, GraphEdge, GraphEdgeDescription, GraphEdgeId, GraphNode, GraphNodeId};
use osm_road_graph::graph_data::{EdgeData, EdgeDataDescription};

fn street(name: &str, street_type: &str, max_speed: u8, bidirectional: bool) -> EdgeData {
    EdgeData { name: name.to_string(), street_type: street_type.to_string(), max_speed, bidirectional }
}

#[test]
fn new_graph_is_empty() {
    let g: Graph<u8, u8> = Graph::new();
    assert_eq!(g.node_count(), 0);
    assert_eq!(g.edge_count(), 0);
    assert_eq!(g.node_indices(), Vec::<GraphNodeId>::new());
}

#[test]
fn nodes_are_numbered_in_the_order_of_insertion() {
    let mut g: Graph<&str, ()> = Graph::new();
    assert_eq!(g.add_node("a"), GraphNodeId(0));
    assert_eq!(g.add_node("b"), GraphNodeId(1));
    assert_eq!(g.add_node("c"), GraphNodeId(2));
    assert_eq!(g.node_count(), 3);
    assert_eq!(g.node_indices(), vec![GraphNodeId(0), GraphNodeId(1), GraphNodeId(2)]);
    assert_eq!(g.nodes[1].data, "b");
    assert_eq!(g.nodes[2].id, GraphNodeId(2));
}

#[test]
fn edges_are_numbered_in_the_order_of_insertion() {
    let mut g: Graph<(), char> = Graph::new();
    let a = g.add_node(());
    let b = g.add_node(());
    g.add_edge(a, b, 'x', false);
    g.add_edge(b, a, 'y', true);
    assert_eq!(g.edge_count(), 2);
    assert_eq!(g.get_edge(&GraphEdgeId(0)).data, 'x');
    assert_eq!(g.get_edge(&GraphEdgeId(1)).id, GraphEdgeId(1));
    assert_eq!(g.get_edge(&GraphEdgeId(1)).s, b);
    assert_eq!(g.get_edge(&GraphEdgeId(1)).t, a);
    assert!(g.get_edge(&GraphEdgeId(1)).bidirectional);
    assert!(!g.get_edge(&GraphEdgeId(0)).bidirectional);
}

#[test]
fn bidirectional_edge_is_listed_at_both_ends() {
    let mut g: Graph<(), ()> = Graph::new();
    let a = g.add_node(());
    let b = g.add_node(());
    let c = g.add_node(());
    g.add_edge(a, b, (), true);
    assert_eq!(g.out_edges(&a), &vec![GraphEdgeId(0)]);
    assert_eq!(g.out_edges(&b), &vec![GraphEdgeId(0)]);
    assert_eq!(g.out_edges(&c), &Vec::<GraphEdgeId>::new());
}

#[test]
fn one_way_edge_is_listed_at_its_source_only() {
    let mut g: Graph<(), ()> = Graph::new();
    let a = g.add_node(());
    let b = g.add_node(());
    g.add_edge(a, b, (), false);
    assert_eq!(g.out_edges(&a), &vec![GraphEdgeId(0)]);
    assert_eq!(g.out_edges(&b), &Vec::<GraphEdgeId>::new());
}

#[test]
fn adjacency_lists_keep_the_order_of_insertion() {
    let mut g: Graph<(), ()> = Graph::new();
    let a = g.add_node(());
    let b = g.add_node(());
    g.add_edge(a, b, (), false);
    g.add_edge(b, a, (), true);
    g.add_edge(a, a, (), true);
    g.add_edge(b, b, (), false);
    assert_eq!(
        g.out_edges(&a),
        &vec![GraphEdgeId(0), GraphEdgeId(1), GraphEdgeId(2), GraphEdgeId(2)]
    );
    assert_eq!(g.out_edges(&b), &vec![GraphEdgeId(1), GraphEdgeId(3)]);
}

#[test]
fn node_keeps_the_edges_added_to_it() {
    let mut node = GraphNode { id: GraphNodeId(4), data: 1.5f32, out_edges: Vec::new() };
    node.add_edge(GraphEdgeId(3));
    node.add_edge(GraphEdgeId(1));
    assert_eq!(node.get_edges(), &vec![GraphEdgeId(3), GraphEdgeId(1)]);
    assert_eq!(node.id, GraphNodeId(4));
}

#[test]
fn edge_data_is_described_by_type_speed_and_direction() {
    assert_eq!(street("Main Street", "residential", 30, true).description(), "residential 30 1");
    assert_eq!(street("", "motorway", 130, false).description(), "motorway 130 0");
    assert_eq!(street("", "", 0, false).description(), " 0 0");
    assert_eq!(street("", "path", 255, true).description(), "path 255 1");
}

#[test]
fn edge_data_has_its_name() {
    assert_eq!(street("Main Street", "residential", 30, true).name(), "Main Street");
    assert_eq!(street("", "residential", 30, true).name(), "");
}

#[test]
fn edge_is_described_by_its_ends_and_its_data() {
    let edge = GraphEdge {
        id: GraphEdgeId(7),
        s: GraphNodeId(12),
        t: GraphNodeId(4_000_000_000),
        data: street("x", "tertiary", 50, false),
        bidirectional: false,
    };
    assert_eq!(edge.description(), "12 4000000000 tertiary 50 0");
}

#[test]
fn duplicate_of_edge_data_has_the_same_fields() {
    let data = street("Ring", "primary", 70, true);
    let copy = data.duplicate();
    assert_eq!(copy.name, "Ring");
    assert_eq!(copy.street_type, "primary");
    assert_eq!(copy.max_speed, 70);
    assert!(copy.bidirectional);
}

#[test]
fn graphs_made_by_insertion_are_well_formed() {
    let mut g: Graph<(), ()> = Graph::new();
    assert!(g.is_well_formed());
    let a = g.add_node(());
    let b = g.add_node(());
    g.add_edge(a, b, (), true);
    g.add_edge(b, b, (), true);
    g.add_edge(b, a, (), false);
    assert!(g.is_well_formed());
}

#[test]
fn graph_with_a_wrong_id_is_not_well_formed() {
    let mut g: Graph<(), ()> = Graph::new();
    g.add_node(());
    g.add_node(());
    g.nodes[1].id = GraphNodeId(5);
    assert!(!g.is_well_formed());

    let mut g: Graph<(), ()> = Graph::new();
    let a = g.add_node(());
    g.add_edge(a, a, (), false);
    g.edges[0].id = GraphEdgeId(1);
    assert!(!g.is_well_formed());
}

#[test]
fn graph_with_an_edge_to_nowhere_is_not_well_formed() {
    let mut g: Graph<(), ()> = Graph::new();
    let a = g.add_node(());
    g.add_edge(a, a, (), false);
    g.edges[0].t = GraphNodeId(1);
    assert!(!g.is_well_formed());
}

#[test]
fn graph_with_a_wrong_adjacency_list_is_not_well_formed() {
    let build = || {
        let mut g: Graph<(), ()> = Graph::new();
        let a = g.add_node(());
        let b = g.add_node(());
        g.add_edge(a, b, (), true);
        g.add_edge(a, b, (), false);
        g
    };
    assert!(build().is_well_formed());

    let mut missing = build();
    missing.nodes[1].out_edges.clear();
    assert!(!missing.is_well_formed());

    let mut surplus = build();
    surplus.nodes[1].add_edge(GraphEdgeId(1));
    assert!(!surplus.is_well_formed());

    let mut swapped = build();
    swapped.nodes[0].out_edges.reverse();
    assert!(!swapped.is_well_formed());

    let mut relabelled = build();
    relabelled.edges[1].bidirectional = true;
    assert!(!relabelled.is_well_formed());
}
