use osm_road_graph::graph::{Graph, GraphEdgeId, GraphNodeId};
use osm_road_graph::graph_data::{EdgeData, NodeData};
use osm_road_graph::lcc::{
    compute_lcc, incoming_edges, kosaraju, kosaraju_step1_2, predecessor_lists, subgraph,
    successor_lists,
};

struct NothingData {}

fn street(name: &str, bidirectional: bool) -> EdgeData {
    EdgeData {
        name: name.to_string(),
        street_type: "residential".to_string(),
        max_speed: 30,
        bidirectional,
    }
}

fn road_graph(nodes: u32, edges: &[(u32, u32, bool)]) -> Graph<NodeData, EdgeData> {
    let mut g: Graph<NodeData, EdgeData> = Graph::new();
    for i in 0..nodes {
        g.add_node(NodeData { lat: i as i32 * 10, lon: i as i32 * 100 });
    }
    for (j, (s, t, bidirectional)) in edges.iter().enumerate() {
        let name = format!("street {}", j);
        g.add_edge(GraphNodeId(*s), GraphNodeId(*t), street(&name, *bidirectional), *bidirectional);
    }
    g
}

fn ends(g: &Graph<NodeData, EdgeData>) -> Vec<(u32, u32)> {
    g.edges.iter().map(|e| (e.s.0, e.t.0)).collect()
}

fn names(g: &Graph<NodeData, EdgeData>) -> Vec<String> {
    g.edges.iter().map(|e| e.data.name.clone()).collect()
}

fn latitudes(g: &Graph<NodeData, EdgeData>) -> Vec<i32> {
    g.nodes.iter().map(|n| n.data.lat).collect()
}

fn adjacency(g: &Graph<NodeData, EdgeData>) -> Vec<Vec<u32>> {
    g.nodes.iter().map(|n| n.get_edges().iter().map(|e| e.0).collect()).collect()
}

#[test]
fn graph_with_two_nodes_should_return_both() {
    let mut g: Graph<NothingData, NothingData> = Graph { nodes: Vec::new(), edges: Vec::new() };

    let s = g.add_node(NothingData {});
    let t = g.add_node(NothingData {});
    g.add_edge(s, t, NothingData {}, true);

    let (result, _in_edges) = kosaraju_step1_2(&g);
    // the traversal goes from 0 to 1 and finishes 1 first
    assert_eq!(result, vec![GraphNodeId(1), GraphNodeId(0)]);
}

#[test]
fn graph_with_four_nodes_and_cycle() {
    let mut g: Graph<NothingData, NothingData> = Graph { nodes: Vec::new(), edges: Vec::new() };

    // +-+    0   +-+   1    +-+
    // |0+------->+1+------->+2|
    // +++        +++        +-+
    //  ^          | 2
    //  |          v
    //  |    3    +++
    //  +---------+3|
    //            +-+

    let v0 = g.add_node(NothingData {});
    let v1 = g.add_node(NothingData {});
    let v2 = g.add_node(NothingData {});
    let v3 = g.add_node(NothingData {});
    g.add_edge(v0, v1, NothingData {}, false);
    g.add_edge(v1, v2, NothingData {}, false);
    g.add_edge(v1, v3, NothingData {}, false);
    g.add_edge(v3, v0, NothingData {}, false);
    let (e0, e1, e2, e3) = (GraphEdgeId(0), GraphEdgeId(1), GraphEdgeId(2), GraphEdgeId(3));

    let (result, in_edges) = kosaraju_step1_2(&g);
    assert_eq!(
        result,
        vec![GraphNodeId(2), GraphNodeId(3), GraphNodeId(1), GraphNodeId(0)]
    );

    assert_eq!(in_edges[v0.0 as usize], vec![e3]);
    assert_eq!(in_edges[v1.0 as usize], vec![e0]);
    assert_eq!(in_edges[v2.0 as usize], vec![e1]);
    assert_eq!(in_edges[v3.0 as usize], vec![e2]);
}

#[test]
fn graph_with_disconnected_component() {
    let mut g: Graph<NothingData, NothingData> = Graph { nodes: Vec::new(), edges: Vec::new() };

    // +-+   0    +-+   1    +-+
    // |0+------->+2+------->+3|
    // +++        +++        +-+
    //             |2
    //             v
    //            +++  +++
    //            +4|  +1|
    //            +-+  +-+

    let v0 = g.add_node(NothingData {});
    let v1 = g.add_node(NothingData {});
    let v2 = g.add_node(NothingData {});
    let v3 = g.add_node(NothingData {});
    let v4 = g.add_node(NothingData {});
    g.add_edge(v0, v2, NothingData {}, false);
    g.add_edge(v2, v3, NothingData {}, false);
    g.add_edge(v2, v4, NothingData {}, false);
    let (e0, e1, e2) = (GraphEdgeId(0), GraphEdgeId(1), GraphEdgeId(2));

    let (result, in_edges) = kosaraju_step1_2(&g);
    assert_eq!(
        result,
        vec![
            GraphNodeId(3),
            GraphNodeId(4),
            GraphNodeId(2),
            GraphNodeId(0),
            GraphNodeId(1)
        ]
    );
    assert!(in_edges[v0.0 as usize].is_empty());
    assert!(in_edges[v1.0 as usize].is_empty());

    assert_eq!(in_edges[v2.0 as usize], vec![e0]);
    assert_eq!(in_edges[v3.0 as usize], vec![e1]);
    assert_eq!(in_edges[v4.0 as usize], vec![e2]);
}

#[test]
fn empty_graph_returns_empty_response() {
    let g: Graph<NothingData, NothingData> = Graph { nodes: Vec::new(), edges: Vec::new() };

    let (result, in_edges) = kosaraju_step1_2(&g);

    assert_eq!(result.len(), 0);
    assert_eq!(in_edges.len(), 0);
}

#[test]
fn incoming_edges_list_a_bidirectional_edge_at_both_ends() {
    let g = road_graph(3, &[(0, 1, true), (1, 2, false), (2, 2, true)]);
    let in_edges = incoming_edges(&g);
    assert_eq!(in_edges[0], vec![GraphEdgeId(0)]);
    assert_eq!(in_edges[1], vec![GraphEdgeId(0)]);
    assert_eq!(in_edges[2], vec![GraphEdgeId(1), GraphEdgeId(2), GraphEdgeId(2)]);
}

#[test]
fn successors_and_predecessors_follow_the_direction_of_edges() {
    let g = road_graph(3, &[(0, 1, true), (1, 2, false)]);
    assert_eq!(successor_lists(&g), vec![vec![1], vec![0, 2], vec![]]);
    let in_edges = incoming_edges(&g);
    assert_eq!(predecessor_lists(&g, &in_edges), vec![vec![1], vec![0], vec![1]]);
}

#[test]
fn kosaraju_labels_each_node_with_the_least_node_of_its_component() {
    // 0 -> 1 -> 2 -> 1, 3 <-> 4, 5 alone
    let g = road_graph(6, &[(0, 1, false), (1, 2, false), (2, 1, false), (3, 4, true)]);
    let labels = kosaraju(&g);
    assert_eq!(
        labels,
        vec![
            GraphNodeId(0),
            GraphNodeId(1),
            GraphNodeId(1),
            GraphNodeId(3),
            GraphNodeId(3),
            GraphNodeId(5)
        ]
    );
}

#[test]
fn cycle_with_an_isolated_node_keeps_the_cycle() {
    let g = road_graph(5, &[(0, 1, false), (1, 2, false), (2, 3, false), (3, 0, false)]);
    let lcc = compute_lcc(&g);
    assert_eq!(lcc.nodes.len(), 4);
    assert_eq!(lcc.edges.len(), 4);
    assert_eq!(ends(&lcc), vec![(0, 1), (1, 2), (2, 3), (3, 0)]);
    assert_eq!(latitudes(&lcc), vec![0, 10, 20, 30]);
    assert_eq!(adjacency(&lcc), vec![vec![0], vec![1], vec![2], vec![3]]);
}

#[test]
fn empty_graph_has_an_empty_largest_component() {
    let g = road_graph(0, &[]);
    let lcc = compute_lcc(&g);
    assert_eq!(lcc.nodes.len(), 0);
    assert_eq!(lcc.edges.len(), 0);
}

#[test]
fn isolated_nodes_are_components_of_their_own() {
    let g = road_graph(3, &[]);
    let lcc = compute_lcc(&g);
    assert_eq!(lcc.nodes.len(), 1);
    assert_eq!(lcc.edges.len(), 0);
    assert_eq!(latitudes(&lcc), vec![0]);
}

#[test]
fn one_way_chain_has_no_component_of_two() {
    let g = road_graph(3, &[(0, 1, false), (1, 2, false)]);
    let lcc = compute_lcc(&g);
    assert_eq!(lcc.nodes.len(), 1);
    assert_eq!(latitudes(&lcc), vec![0]);
    assert_eq!(lcc.edges.len(), 0);
}

#[test]
fn largest_component_is_renumbered_in_the_old_order() {
    // component {1, 3, 4} and component {0, 2}
    let g = road_graph(
        5,
        &[(0, 2, true), (4, 1, false), (1, 3, false), (3, 4, false), (2, 3, false), (1, 1, false)],
    );
    let lcc = compute_lcc(&g);
    assert_eq!(latitudes(&lcc), vec![10, 30, 40]);
    assert_eq!(ends(&lcc), vec![(2, 0), (0, 1), (1, 2), (0, 0)]);
    assert_eq!(names(&lcc), vec!["street 1", "street 2", "street 3", "street 5"]);
    let ids: Vec<u32> = lcc.nodes.iter().map(|n| n.id.0).collect();
    assert_eq!(ids, vec![0, 1, 2]);
    let edge_ids: Vec<u32> = lcc.edges.iter().map(|e| e.id.0).collect();
    assert_eq!(edge_ids, vec![0, 1, 2, 3]);
    assert_eq!(adjacency(&lcc), vec![vec![1, 3], vec![2], vec![0]]);
}

#[test]
fn of_two_largest_components_the_one_with_the_least_node_is_kept() {
    // {0, 3} and {1, 2} are both of size two
    let g = road_graph(4, &[(1, 2, true), (0, 3, true)]);
    let lcc = compute_lcc(&g);
    assert_eq!(latitudes(&lcc), vec![0, 30]);
    assert_eq!(ends(&lcc), vec![(0, 1)]);
    assert_eq!(names(&lcc), vec!["street 1"]);
}

#[test]
fn bidirectional_edges_connect_both_ways() {
    let g = road_graph(3, &[(0, 1, true), (2, 1, true)]);
    let lcc = compute_lcc(&g);
    assert_eq!(lcc.nodes.len(), 3);
    assert_eq!(ends(&lcc), vec![(0, 1), (2, 1)]);
    assert!(lcc.edges.iter().all(|e| e.bidirectional && e.data.bidirectional));
    assert_eq!(adjacency(&lcc), vec![vec![0], vec![0, 1], vec![1]]);
}

#[test]
fn parallel_edges_and_loops_are_kept() {
    let g = road_graph(2, &[(0, 1, false), (0, 1, false), (1, 0, false), (0, 0, true)]);
    let lcc = compute_lcc(&g);
    assert_eq!(lcc.nodes.len(), 2);
    assert_eq!(ends(&lcc), vec![(0, 1), (0, 1), (1, 0), (0, 0)]);
    assert_eq!(adjacency(&lcc), vec![vec![0, 1, 3, 3], vec![2]]);
}

#[test]
fn component_analysis_of_its_own_result_changes_nothing() {
    let g = road_graph(
        7,
        &[
            (0, 1, false),
            (1, 2, true),
            (2, 5, false),
            (5, 1, false),
            (5, 6, false),
            (3, 4, true),
            (6, 6, false),
        ],
    );
    let once = compute_lcc(&g);
    let twice = compute_lcc(&once);
    assert_eq!(latitudes(&once), vec![10, 20, 50]);
    assert_eq!(latitudes(&twice), latitudes(&once));
    assert_eq!(ends(&twice), ends(&once));
    assert_eq!(names(&twice), names(&once));
    assert_eq!(adjacency(&twice), adjacency(&once));
}

#[test]
fn every_node_of_the_result_reaches_every_other() {
    let g = road_graph(
        6,
        &[(0, 1, false), (1, 2, false), (2, 0, false), (2, 3, false), (3, 4, true), (5, 0, false)],
    );
    let lcc = compute_lcc(&g);
    let forth = successor_lists(&lcc);
    let n = forth.len();
    assert_eq!(n, 3);
    for start in 0..n {
        let mut seen = vec![false; n];
        let mut stack = vec![start];
        seen[start] = true;
        while let Some(u) = stack.pop() {
            for &w in &forth[u] {
                if !seen[w] {
                    seen[w] = true;
                    stack.push(w);
                }
            }
        }
        assert!(seen.iter().all(|&s| s));
    }
}

#[test]
fn subgraph_keeps_the_marked_nodes_and_the_edges_between_them() {
    let g = road_graph(4, &[(0, 1, false), (1, 3, false), (3, 1, true), (2, 3, false)]);
    let part = subgraph(&g, &vec![false, true, false, true]);
    assert_eq!(latitudes(&part), vec![10, 30]);
    assert_eq!(ends(&part), vec![(0, 1), (1, 0)]);
    assert_eq!(names(&part), vec!["street 1", "street 2"]);
}

#[test]
fn deep_chain_is_traversed_without_recursion() {
    let n: u32 = 200_000;
    let mut edges: Vec<(u32, u32, bool)> = Vec::new();
    for i in 0..n - 1 {
        edges.push((i, i + 1, false));
    }
    edges.push((n - 1, 0, false));
    let g = road_graph(n, &edges);
    let lcc = compute_lcc(&g);
    assert_eq!(lcc.nodes.len(), n as usize);
    assert_eq!(lcc.edges.len(), n as usize);
}

/// Numbers that look random, the same in every run.
struct Dice(u64);

impl Dice {
    fn roll(&mut self, sides: u64) -> u64 {
        self.0 = self.0.wrapping_mul(6364136223846793005).wrapping_add(1442695040888963407);
        (self.0 >> 33) % sides
    }
}

#[test]
fn result_is_the_first_of_the_largest_components_of_random_graphs() {
    let mut dice = Dice(42);
    for _round in 0..300 {
        let n = dice.roll(9) as u32;
        let mut edges: Vec<(u32, u32, bool)> = Vec::new();
        if n > 0 {
            let m = dice.roll(14);
            for _ in 0..m {
                edges.push((dice.roll(n as u64) as u32, dice.roll(n as u64) as u32, dice.roll(4) == 0));
            }
        }
        let g = road_graph(n, &edges);

        // which node is reached from which
        let size = n as usize;
        let mut reach = vec![vec![false; size]; size];
        for i in 0..size {
            reach[i][i] = true;
        }
        for &(s, t, both) in &edges {
            reach[s as usize][t as usize] = true;
            if both {
                reach[t as usize][s as usize] = true;
            }
        }
        for k in 0..size {
            for i in 0..size {
                for j in 0..size {
                    if reach[i][k] && reach[k][j] {
                        reach[i][j] = true;
                    }
                }
            }
        }
        let component_size =
            |x: usize| (0..size).filter(|&y| reach[x][y] && reach[y][x]).count();
        let mut leader: Option<usize> = None;
        for x in 0..size {
            if leader.map_or(true, |l| component_size(x) > component_size(l)) {
                leader = Some(x);
            }
        }
        let kept: Vec<usize> = match leader {
            Some(l) => (0..size).filter(|&y| reach[l][y] && reach[y][l]).collect(),
            None => Vec::new(),
        };
        let number = |x: u32| kept.iter().position(|&y| y == x as usize);
        let expected_ends: Vec<(u32, u32)> = edges
            .iter()
            .filter_map(|&(s, t, _)| match (number(s), number(t)) {
                (Some(a), Some(b)) => Some((a as u32, b as u32)),
                _ => None,
            })
            .collect();
        let expected_names: Vec<String> = edges
            .iter()
            .enumerate()
            .filter(|(_, &(s, t, _))| number(s).is_some() && number(t).is_some())
            .map(|(j, _)| format!("street {}", j))
            .collect();

        let lcc = compute_lcc(&g);
        let expected_lat: Vec<i32> = kept.iter().map(|&x| x as i32 * 10).collect();
        assert_eq!(latitudes(&lcc), expected_lat);
        assert_eq!(ends(&lcc), expected_ends);
        assert_eq!(names(&lcc), expected_names);
        assert!(lcc.is_well_formed());

        let labels = kosaraju(&g);
        for x in 0..size {
            let least = (0..size).find(|&y| reach[x][y] && reach[y][x]).unwrap();
            assert_eq!(labels[x], GraphNodeId(least as u32));
        }
    }
}
