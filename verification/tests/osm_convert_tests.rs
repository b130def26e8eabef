use std::collections::HashMap;

use osm_road_graph::network_type::NetworkType;
use osm_road_graph::osm_convert::{
    build_graph, can_convert, convert, parse_speed, read_speed, try_convert,
};
use osm_road_graph::osm_parse_config::OSMParseConfig;
use osm_road_graph::read_osm::{filter_nodes_and_ways, RawPoint, RawWay};
use osmpbfreader::Tags;

fn create_config() -> (OSMParseConfig, String, u8, u8) {
    let highway: String = "barfoo".to_string();
    let highway_speed: u8 = 23;
    //
    let max_speed: Vec<(String, u8)> = vec![(highway.to_owned(), highway_speed)];
    //
    let default_walking_speed: u8 = 12;

    let config = OSMParseConfig::new(Vec::new(), max_speed, default_walking_speed);

    return (config, highway, highway_speed, default_walking_speed);
}

fn residential_config() -> OSMParseConfig {
    OSMParseConfig::new(
        vec![(NetworkType::Car, vec!["motorway".to_string(), "residential".to_string()])],
        vec![
            ("residential".to_string(), 30),
            ("motorway".to_string(), 130),
            ("unknown".to_string(), 50),
        ],
        5,
    )
}

fn speed_of(text: Option<&str>, street_type: &str, config: &OSMParseConfig) -> u8 {
    let owned = text.map(|t| t.to_string());
    parse_speed(owned.as_ref(), &street_type.to_string(), config)
}

fn tags(entries: &[(&str, &str)]) -> Tags {
    let mut tags = Tags::new();
    for (key, value) in entries {
        tags.insert((*key).into(), (*value).into());
    }
    tags
}

fn way(nodes: &[i64], entries: &[(&str, &str)]) -> RawWay {
    RawWay { nodes: nodes.to_vec(), tags: tags(entries) }
}

fn point(id: i64) -> RawPoint {
    RawPoint { id, lat: (id * 3) as i32, lon: (id * 7) as i32 }
}

#[test]
fn should_return_default_speed_for_highway_when_speed_is_none() {
    let (config, highway, highway_speed, _default_walking_speed) = create_config();

    let speed = None;
    let street_type: String = highway.to_owned();

    let result: u8 = parse_speed(speed, &street_type, &config);

    assert!(result == highway_speed);
}

#[test]
fn should_return_default_default_walking_speed_when_speed_is_walk() {
    let (config, highway, _highway_speed, default_walking_speed) = create_config();

    let speed_str = "walk".to_string();
    let speed = Some(&speed_str);
    let street_type: String = highway.to_owned();

    let result: u8 = parse_speed(speed, &street_type, &config);

    assert!(result == default_walking_speed);
}

#[test]
fn should_return_default_default_highway_speed_when_contains_none() {
    let (config, highway, highway_speed, _default_walking_speed) = create_config();

    let speed_str = "none".to_string();
    let speed = Some(&speed_str);
    let street_type: String = highway.to_owned();

    let result: u8 = parse_speed(speed, &street_type, &config);

    assert!(result == highway_speed);
}

#[test]
fn should_return_mph_speed() {
    let (config, highway, _highway_speed, _default_walking_speed) = create_config();

    let speed_str = "10 mph".to_string();
    let speed = Some(&speed_str);
    let street_type: String = highway.to_owned();

    let result: u8 = parse_speed(speed, &street_type, &config);
    let lower_bound = (10.0 * 1.60) as u8;
    let upper_bound = (10.0 * 1.61) as u8;

    assert!(result >= lower_bound);
    assert!(result <= upper_bound);
}

#[test]
fn should_return_kmh_speed() {
    let (config, highway, _highway_speed, _default_walking_speed) = create_config();

    let kmhs = ["kmh", "km/h", "kph"];
    let speed_str = "123";
    for s in kmhs.iter() {
        let speed_str = speed_str.to_string() + *s;
        let speed = Some(&speed_str);
        let street_type: String = highway.to_owned();

        let result: u8 = parse_speed(speed, &street_type, &config);

        assert!(result == 123);
    }
}

#[test]
fn should_return_speed() {
    let (config, highway, _highway_speed, _default_walking_speed) = create_config();

    let speed_str = "22".to_string();
    let speed = Some(&speed_str);
    let street_type: String = highway.to_owned();

    let result: u8 = parse_speed(speed, &street_type, &config);

    assert!(result == 22);
}

#[test]
fn should_return_default_speed_if_garbage() {
    let (config, highway, highway_speed, _default_walking_speed) = create_config();

    let speed_str = "garbage".to_string();
    let speed = Some(&speed_str);
    let street_type: String = highway.to_owned();

    let result: u8 = parse_speed(speed, &street_type, &config);

    assert!(result == highway_speed);
}

#[test]
fn speeds_of_a_residential_street() {
    let config = residential_config();
    assert_eq!(speed_of(None, "residential", &config), 30);
    assert_eq!(speed_of(Some("40"), "residential", &config), 40);
    assert_eq!(speed_of(Some("walk"), "residential", &config), 5);
    assert_eq!(speed_of(Some("none"), "residential", &config), 30);
    assert_eq!(speed_of(Some("30 mph"), "residential", &config), 48);
    assert_eq!(speed_of(Some("60kmh"), "residential", &config), 60);
    assert_eq!(speed_of(Some("bogus"), "residential", &config), 30);
}

#[test]
fn unknown_highway_type_takes_the_speed_of_the_entry_unknown() {
    let config = residential_config();
    assert_eq!(speed_of(None, "track", &config), 50);
    assert_eq!(speed_of(Some("none"), "track", &config), 50);
    assert_eq!(speed_of(Some("fast"), "track", &config), 50);
    assert_eq!(speed_of(Some("70"), "track", &config), 70);
}

#[test]
fn plain_numbers_are_taken_as_they_are() {
    let config = residential_config();
    assert_eq!(speed_of(Some("0"), "residential", &config), 0);
    assert_eq!(speed_of(Some("255"), "residential", &config), 255);
    assert_eq!(speed_of(Some("007"), "residential", &config), 7);
    assert_eq!(speed_of(Some("+15"), "residential", &config), 15);
}

#[test]
fn numbers_that_are_no_speed_give_the_default() {
    let config = residential_config();
    assert_eq!(speed_of(Some("256"), "residential", &config), 30);
    assert_eq!(speed_of(Some("-5"), "residential", &config), 30);
    assert_eq!(speed_of(Some(" 50"), "residential", &config), 30);
    assert_eq!(speed_of(Some("50 "), "residential", &config), 30);
    assert_eq!(speed_of(Some("5_0"), "residential", &config), 30);
    assert_eq!(speed_of(Some("+"), "residential", &config), 30);
    assert_eq!(speed_of(Some(""), "residential", &config), 30);
    assert_eq!(speed_of(Some("٣٠"), "residential", &config), 30);
}

#[test]
fn miles_per_hour_are_converted_and_the_fraction_dropped() {
    let config = residential_config();
    assert_eq!(speed_of(Some("1 mph"), "residential", &config), 1);
    assert_eq!(speed_of(Some("5mph"), "residential", &config), 8);
    assert_eq!(speed_of(Some("55 mp/h"), "residential", &config), 88);
    assert_eq!(speed_of(Some("70 mph"), "residential", &config), 112);
    assert_eq!(speed_of(Some("158 mph"), "residential", &config), 254);
    assert_eq!(speed_of(Some("0 mph"), "residential", &config), 0);
}

#[test]
fn miles_per_hour_stop_at_255() {
    let config = residential_config();
    assert_eq!(speed_of(Some("159 mph"), "residential", &config), 255);
    assert_eq!(speed_of(Some("1000 mph"), "residential", &config), 255);
    assert_eq!(
        speed_of(Some("99999999999999999999999999999999 mph"), "residential", &config),
        255
    );
}

#[test]
fn miles_per_hour_agree_with_the_product_in_floating_point() {
    let config = residential_config();
    for miles in 0..400u32 {
        let text = format!("{} mph", miles);
        let expected = (miles as f64 * 1.609344) as u8;
        assert_eq!(speed_of(Some(&text), "residential", &config), expected);
    }
}

#[test]
fn digits_are_gathered_from_the_whole_value() {
    let config = residential_config();
    assert_eq!(speed_of(Some("1.5 mph"), "residential", &config), 24);
    assert_eq!(speed_of(Some("ca. 4 or 5 kmh"), "residential", &config), 45);
    assert_eq!(speed_of(Some("12;3 km/h"), "residential", &config), 123);
}

#[test]
fn units_without_a_speed_give_the_default() {
    let config = residential_config();
    assert_eq!(speed_of(Some("mph"), "residential", &config), 30);
    assert_eq!(speed_of(Some("kmh"), "residential", &config), 30);
    assert_eq!(speed_of(Some("300 kmh"), "residential", &config), 30);
    assert_eq!(speed_of(Some("km/h 256"), "residential", &config), 30);
}

#[test]
fn walk_comes_before_none_and_none_before_units() {
    let config = residential_config();
    assert_eq!(speed_of(Some("none or walk"), "residential", &config), 5);
    assert_eq!(speed_of(Some("none 20 mph"), "residential", &config), 30);
    assert_eq!(speed_of(Some("20 mph 30 kmh"), "residential", &config), 255);
    assert_eq!(speed_of(Some("WALK"), "residential", &config), 30);
}

#[test]
fn one_way_motorway_gives_two_nodes_and_one_edge() {
    let config = OSMParseConfig::new(
        vec![(NetworkType::Car, vec!["motorway".to_string()])],
        vec![("motorway".to_string(), 130), ("unknown".to_string(), 50)],
        5,
    );
    let mut nodes: HashMap<i64, RawPoint> = HashMap::new();
    nodes.insert(10, point(10));
    nodes.insert(20, point(20));
    let ways = vec![way(&[10, 20], &[("highway", "motorway"), ("oneway", "yes")])];

    let (nodes, ways) = filter_nodes_and_ways(nodes, ways, &config, &NetworkType::Car);
    assert_eq!(nodes.len(), 2);
    assert_eq!(ways.len(), 1);

    let g = convert(nodes, ways, &config);
    assert_eq!(g.nodes.len(), 2);
    assert_eq!(g.edges.len(), 1);
    let edge = &g.edges[0];
    assert!(!edge.bidirectional);
    assert!(!edge.data.bidirectional);
    assert_eq!(edge.data.street_type, "motorway");
    assert_eq!(edge.data.max_speed, 130);
    assert_eq!(edge.data.name, "");
    let source = &g.nodes[edge.s.0 as usize];
    let target = &g.nodes[edge.t.0 as usize];
    assert_eq!((source.data.lat, source.data.lon), (30, 70));
    assert_eq!((target.data.lat, target.data.lon), (60, 140));
    assert_eq!(source.get_edges().len(), 1);
    assert_eq!(target.get_edges().len(), 0);
}

#[test]
fn build_graph_makes_a_node_per_point_and_an_edge_per_way() {
    let config = residential_config();
    let points = vec![(5, point(5)), (3, point(3)), (9, point(9))];
    let ways = vec![
        way(&[3, 5, 9], &[("highway", "residential"), ("name", "Long Lane"), ("maxspeed", "20")]),
        way(&[9, 3], &[("highway", "motorway"), ("oneway", "yes")]),
        way(&[5], &[("highway", "track"), ("oneway", "no"), ("maxspeed", "10 mph")]),
    ];
    let g = build_graph(&points, &ways, &config);

    let positions: Vec<(i32, i32)> = g.nodes.iter().map(|n| (n.data.lat, n.data.lon)).collect();
    assert_eq!(positions, vec![(15, 35), (9, 21), (27, 63)]);
    let node_ids: Vec<u32> = g.nodes.iter().map(|n| n.id.0).collect();
    assert_eq!(node_ids, vec![0, 1, 2]);
    let edge_ids: Vec<u32> = g.edges.iter().map(|e| e.id.0).collect();
    assert_eq!(edge_ids, vec![0, 1, 2]);

    let ends: Vec<(u32, u32, bool)> = g.edges.iter().map(|e| (e.s.0, e.t.0, e.bidirectional)).collect();
    assert_eq!(ends, vec![(1, 2, true), (2, 1, false), (0, 0, true)]);
    assert_eq!(g.edges[0].data.name, "Long Lane");
    assert_eq!(g.edges[0].data.street_type, "residential");
    assert_eq!(g.edges[0].data.max_speed, 20);
    assert_eq!(g.edges[1].data.name, "");
    assert_eq!(g.edges[1].data.max_speed, 130);
    assert_eq!(g.edges[2].data.street_type, "track");
    assert_eq!(g.edges[2].data.max_speed, 16);
    assert!(g.edges[2].data.bidirectional);

    let lists: Vec<Vec<u32>> =
        g.nodes.iter().map(|n| n.get_edges().iter().map(|e| e.0).collect()).collect();
    assert_eq!(lists, vec![vec![2, 2], vec![0], vec![0, 1]]);
}

#[test]
fn build_graph_takes_the_last_of_two_points_with_one_id() {
    let config = residential_config();
    let points = vec![(1, point(1)), (2, point(2)), (1, point(4))];
    let ways = vec![way(&[1, 2], &[("highway", "residential")])];
    let g = build_graph(&points, &ways, &config);
    assert_eq!(g.nodes.len(), 3);
    assert_eq!((g.edges[0].s.0, g.edges[0].t.0), (2, 1));
}

#[test]
fn convert_numbers_nodes_and_edges_without_gaps() {
    let config = residential_config();
    let mut nodes: HashMap<i64, RawPoint> = HashMap::new();
    for id in [7i64, -3, 100, 42] {
        nodes.insert(id, point(id));
    }
    let ways = vec![
        way(&[7, -3], &[("highway", "residential")]),
        way(&[100, 42, 7], &[("highway", "residential"), ("oneway", "yes")]),
    ];
    let g = convert(nodes, ways, &config);
    let mut node_ids: Vec<u32> = g.nodes.iter().map(|n| n.id.0).collect();
    assert_eq!(node_ids, vec![0, 1, 2, 3]);
    node_ids.clear();
    let edge_ids: Vec<u32> = g.edges.iter().map(|e| e.id.0).collect();
    assert_eq!(edge_ids, vec![0, 1]);

    let lat_of = |n: u32| g.nodes[n as usize].data.lat;
    assert_eq!((lat_of(g.edges[0].s.0), lat_of(g.edges[0].t.0)), (21, -9));
    assert_eq!((lat_of(g.edges[1].s.0), lat_of(g.edges[1].t.0)), (300, 21));
    let mut all: Vec<i32> = g.nodes.iter().map(|n| n.data.lat).collect();
    all.sort();
    assert_eq!(all, vec![-9, 21, 126, 300]);

    // both ends list the bidirectional edge, only the source the other
    let lists = |n: u32| -> Vec<u32> { g.nodes[n as usize].get_edges().iter().map(|e| e.0).collect() };
    assert!(lists(g.edges[0].s.0).contains(&0));
    assert!(lists(g.edges[0].t.0).contains(&0));
    assert!(lists(g.edges[1].s.0).contains(&1));
    assert!(!lists(g.edges[1].t.0).contains(&1));
}

#[test]
fn convert_of_nothing_is_the_empty_graph() {
    let config = residential_config();
    let g = convert(HashMap::new(), Vec::new(), &config);
    assert_eq!(g.nodes.len(), 0);
    assert_eq!(g.edges.len(), 0);
}

#[test]
fn read_speed_tells_a_stated_speed_from_none() {
    assert_eq!(read_speed("40", 5), Some(40));
    assert_eq!(read_speed("walk", 5), Some(5));
    assert_eq!(read_speed("none", 5), None);
    assert_eq!(read_speed("30 mph", 5), Some(48));
    assert_eq!(read_speed("60kmh", 5), Some(60));
    assert_eq!(read_speed("bogus", 5), None);
    assert_eq!(read_speed("mph", 5), None);
    assert_eq!(read_speed("999 kph", 5), None);
}

#[test]
fn ways_that_the_builder_cannot_take_are_told() {
    let config = residential_config();
    let bare = OSMParseConfig::new(Vec::new(), vec![("residential".to_string(), 30)], 5);
    let mut nodes: HashMap<i64, RawPoint> = HashMap::new();
    nodes.insert(1, point(1));
    nodes.insert(2, point(2));

    assert!(can_convert(&nodes, &Vec::new(), &config));
    assert!(can_convert(&nodes, &vec![way(&[1, 9, 2], &[("highway", "track")])], &config));
    // no points
    assert!(!can_convert(&nodes, &vec![way(&[], &[("highway", "track")])], &config));
    // first or last point unknown
    assert!(!can_convert(&nodes, &vec![way(&[9, 2], &[("highway", "track")])], &config));
    assert!(!can_convert(&nodes, &vec![way(&[1, 9], &[("highway", "track")])], &config));
    // no highway tag
    assert!(!can_convert(&nodes, &vec![way(&[1, 2], &[("name", "x")])], &config));
    // no speed to be had
    assert!(!can_convert(&nodes, &vec![way(&[1, 2], &[("highway", "track")])], &bare));
    assert!(!can_convert(
        &nodes,
        &vec![way(&[1, 2], &[("highway", "track"), ("maxspeed", "fast")])],
        &bare
    ));
    assert!(can_convert(
        &nodes,
        &vec![way(&[1, 2], &[("highway", "track"), ("maxspeed", "20")])],
        &bare
    ));
    assert!(can_convert(&nodes, &vec![way(&[1, 2], &[("highway", "residential")])], &bare));
    // one bad way among good ones
    assert!(!can_convert(
        &nodes,
        &vec![
            way(&[1, 2], &[("highway", "residential")]),
            way(&[2], &[]),
            way(&[2, 1], &[("highway", "residential")]),
        ],
        &bare
    ));
}

#[test]
fn try_convert_builds_the_graph_or_nothing() {
    let config = residential_config();
    let mut nodes: HashMap<i64, RawPoint> = HashMap::new();
    nodes.insert(1, point(1));
    nodes.insert(2, point(2));

    let built = try_convert(nodes.clone(), vec![way(&[1, 2], &[("highway", "track")])], &config);
    let g = built.unwrap();
    assert_eq!(g.nodes.len(), 2);
    assert_eq!(g.edges.len(), 1);
    assert_eq!(g.edges[0].data.max_speed, 50);

    assert!(try_convert(nodes.clone(), vec![way(&[1, 3], &[("highway", "track")])], &config).is_none());
    assert!(try_convert(nodes, vec![way(&[], &[("highway", "track")])], &config).is_none());
}
