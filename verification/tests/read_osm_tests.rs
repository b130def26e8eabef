use std::collections::HashMap;

use osm_road_graph::network_type::NetworkType;
use osm_road_graph::osm_parse_config::OSMParseConfig;
use osm_road_graph::read_osm::{filter_nodes_and_ways, RawPoint, RawWay};
use osmpbfreader::Tags;

fn tags(entries: &[(&str, &str)]) -> Tags {
    let mut tags = Tags::new();
    for (key, value) in entries {
        tags.insert((*key).into(), (*value).into());
    }
    tags
}

fn way(nodes: &[i64], entries: &[(&str, &str)]) -> RawWay {
    RawWay { nodes: nodes.to_vec(), tags: tags(entries) }
}

fn points(ids: &[i64]) -> HashMap<i64, RawPoint> {
    ids.iter().map(|&id| (id, RawPoint { id, lat: id as i32, lon: -(id as i32) })).collect()
}

fn policy() -> OSMParseConfig {
    OSMParseConfig::new(
        vec![
            (NetworkType::Pedestrian, vec!["footway".to_string(), "path".to_string()]),
            (NetworkType::Car, vec!["motorway".to_string(), "residential".to_string()]),
        ],
        vec![("unknown".to_string(), 50)],
        5,
    )
}

fn kept_ids(nodes: &HashMap<i64, RawPoint>) -> Vec<i64> {
    let mut ids: Vec<i64> = nodes.keys().copied().collect();
    ids.sort();
    ids
}

#[test]
fn admissible_ways_are_kept_in_reverse_order_with_their_points() {
    let ways = vec![
        way(&[1, 2], &[("highway", "residential"), ("name", "first")]),
        way(&[2, 3], &[("highway", "footway"), ("name", "second")]),
        way(&[3, 4, 5], &[("highway", "motorway"), ("name", "third")]),
    ];
    let (nodes, ways) = filter_nodes_and_ways(points(&[1, 2, 3, 4, 5, 6]), ways, &policy(), &NetworkType::Car);
    let names: Vec<String> = ways.iter().map(|w| w.tags.get("name").unwrap().to_string()).collect();
    assert_eq!(names, vec!["third", "first"]);
    assert_eq!(ways[0].nodes, vec![3, 4, 5]);
    assert_eq!(kept_ids(&nodes), vec![1, 2, 3, 4, 5]);
    assert_eq!(nodes[&4], RawPoint { id: 4, lat: 4, lon: -4 });
}

#[test]
fn way_with_an_unknown_point_is_dropped() {
    let ways = vec![
        way(&[1, 2, 99], &[("highway", "residential")]),
        way(&[2, 3], &[("highway", "residential")]),
    ];
    let (nodes, ways) = filter_nodes_and_ways(points(&[1, 2, 3]), ways, &policy(), &NetworkType::Car);
    assert_eq!(ways.len(), 1);
    assert_eq!(ways[0].nodes, vec![2, 3]);
    assert_eq!(kept_ids(&nodes), vec![2, 3]);
}

#[test]
fn areas_are_dropped() {
    let ways = vec![
        way(&[1, 2, 1], &[("highway", "residential"), ("area", "yes")]),
        way(&[2, 3], &[("highway", "residential"), ("area", "no")]),
    ];
    let (nodes, ways) = filter_nodes_and_ways(points(&[1, 2, 3]), ways, &policy(), &NetworkType::Car);
    assert_eq!(ways.len(), 1);
    assert_eq!(ways[0].nodes, vec![2, 3]);
    assert_eq!(kept_ids(&nodes), vec![2, 3]);
}

#[test]
fn way_without_highway_tag_is_dropped() {
    let ways = vec![way(&[1, 2], &[("name", "nowhere")]), way(&[1, 2], &[("highway", "river")])];
    let (nodes, ways) = filter_nodes_and_ways(points(&[1, 2]), ways, &policy(), &NetworkType::Car);
    assert_eq!(ways.len(), 0);
    assert_eq!(nodes.len(), 0);
}

#[test]
fn means_of_travel_without_entry_may_use_nothing() {
    let ways = vec![way(&[1, 2], &[("highway", "residential")]), way(&[1, 2], &[("highway", "path")])];
    let (nodes, ways) = filter_nodes_and_ways(points(&[1, 2]), ways, &policy(), &NetworkType::Bicycle);
    assert_eq!(ways.len(), 0);
    assert_eq!(nodes.len(), 0);
}

#[test]
fn permitted_highways_depend_on_the_means_of_travel() {
    let ways = vec![way(&[1, 2], &[("highway", "residential")]), way(&[2, 3], &[("highway", "path")])];
    let (nodes, ways) = filter_nodes_and_ways(points(&[1, 2, 3]), ways, &policy(), &NetworkType::Pedestrian);
    assert_eq!(ways.len(), 1);
    assert_eq!(ways[0].nodes, vec![2, 3]);
    assert_eq!(kept_ids(&nodes), vec![2, 3]);
}

#[test]
fn points_of_no_way_are_dropped() {
    let ways = vec![way(&[2, 2], &[("highway", "motorway")])];
    let (nodes, ways) = filter_nodes_and_ways(points(&[1, 2, 3]), ways, &policy(), &NetworkType::Car);
    assert_eq!(ways.len(), 1);
    assert_eq!(kept_ids(&nodes), vec![2]);
}

#[test]
fn kept_ways_run_through_kept_points_only() {
    let ways = vec![
        way(&[1, 2, 3], &[("highway", "residential")]),
        way(&[3, 4], &[("highway", "footway")]),
        way(&[4, 5, 6, 1], &[("highway", "motorway")]),
        way(&[7, 8], &[("highway", "motorway"), ("area", "yes")]),
        way(&[8, 9, 10], &[("highway", "residential")]),
    ];
    let (nodes, ways) =
        filter_nodes_and_ways(points(&[1, 2, 3, 4, 5, 6, 7, 8, 9]), ways, &policy(), &NetworkType::Car);
    assert_eq!(ways.len(), 2);
    for way in &ways {
        for id in &way.nodes {
            assert!(nodes.contains_key(id));
        }
    }
    assert_eq!(kept_ids(&nodes), vec![1, 2, 3, 4, 5, 6]);
}

#[test]
fn nothing_in_gives_nothing_out() {
    let (nodes, ways) = filter_nodes_and_ways(HashMap::new(), Vec::new(), &policy(), &NetworkType::Car);
    assert_eq!(nodes.len(), 0);
    assert_eq!(ways.len(), 0);
}

#[test]
fn way_without_points_is_admissible() {
    let ways = vec![way(&[], &[("highway", "motorway")])];
    let (nodes, ways) = filter_nodes_and_ways(points(&[1]), ways, &policy(), &NetworkType::Car);
    assert_eq!(ways.len(), 1);
    assert_eq!(nodes.len(), 0);
}
