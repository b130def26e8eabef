//! The graph builder: a node per point, an edge per way, and the speed of
//! an edge from the way's `maxspeed` tag.

use crate::graph::{EdgeModel, Graph, GraphModel, GraphNodeId};
use crate::graph_data::{EdgeData, NodeData};
use crate::osm_parse_config::{OSMParseConfig, PolicyModel};
use crate::read_osm::{tag_map, tag_value, RawPoint, RawWay};
use crate::util::{keep_characters, kept_characters, same_text};
use std::collections::HashMap;
use vstd::prelude::*;
use vstd::std_specs::iter::IteratorSpec;

verus! {

/// The value of a decimal digit; -1 for any other character.
pub open spec fn digit_value(c: char) -> int {
    if c == '0' {
        0
    } else if c == '1' {
        1
    } else if c == '2' {
        2
    } else if c == '3' {
        3
    } else if c == '4' {
        4
    } else if c == '5' {
        5
    } else if c == '6' {
        6
    } else if c == '7' {
        7
    } else if c == '8' {
        8
    } else if c == '9' {
        9
    } else {
        -1
    }
}

/// Whether the text is made of decimal digits only.
pub open spec fn is_digits(text: Seq<char>) -> bool {
    forall|i: int| 0 <= i < text.len() ==> digit_value(#[trigger] text[i]) >= 0
}

/// The number that a text of decimal digits denotes.
pub open spec fn decimal_value(digits: Seq<char>) -> nat
    decreases digits.len(),
{
    if digits.len() == 0 {
        0
    } else {
        (decimal_value(digits.drop_last()) * 10 + digit_value(digits.last())) as nat
    }
}

/// The number below 256 that a text denotes as a whole: decimal digits,
/// at least one, after at most one `+`.
pub open spec fn parsed_u8(text: Seq<char>) -> Option<u8> {
    let digits = if text.len() > 0 && text[0] == '+' {
        text.drop_first()
    } else {
        text
    };
    if digits.len() > 0 && is_digits(digits) && decimal_value(digits) <= 255 {
        Some(decimal_value(digits) as u8)
    } else {
        None
    }
}

/// Whether `part` occurs in `text` as a run of consecutive characters.
pub open spec fn has_part(text: Seq<char>, part: Seq<char>) -> bool {
    exists|i: int|
        0 <= i && i + part.len() <= text.len() && #[trigger] text.subrange(i, i + part.len())
            == part
}

/// The text as a number below 256. This is `str::parse::<u8>`, which
/// accepts decimal digits after an optional `+` and nothing else, and
/// fails on a text without digits and on a number above 255. Taken on
/// trust: that it accepts exactly these texts and gives their value.
#[verifier::external_body]
pub(crate) fn parse_u8(text: &str) -> (number: Option<u8>)
    ensures
        number == parsed_u8(text@),
{
    text.parse::<u8>().ok()
}

/// Whether `part` occurs in `text`. This is `str::contains` with a text
/// as the pattern, which tells whether the pattern matches a sub-slice.
/// Taken on trust: that it says so exactly if the characters of `part`
/// stand in `text` one after the other.
#[verifier::external_body]
pub(crate) fn contains_text(text: &str, part: &str) -> (found: bool)
    ensures
        found == has_part(text@, part@),
{
    text.contains(part)
}

/// Miles per hour as kilometres per hour: multiplied by 1.609344, the
/// fraction dropped, and 255 for anything above.
pub open spec fn mph_to_kmh(mph: nat) -> u8 {
    let kmh = mph * 1609344 / 1000000;
    if kmh > 255 {
        255
    } else {
        kmh as u8
    }
}

/// The speed that the value of a `maxspeed` tag states by itself; `None`
/// where the default speed of the highway type is to be taken.
pub open spec fn stated_speed(text: Seq<char>, walking_speed: u8) -> Option<u8> {
    let digits = kept_characters(text, "0123456789"@);
    if parsed_u8(text) is Some {
        parsed_u8(text)
    } else if has_part(text, "walk"@) {
        Some(walking_speed)
    } else if has_part(text, "none"@) {
        None
    } else if has_part(text, "mph"@) || has_part(text, "mp/h"@) {
        if digits.len() > 0 {
            Some(mph_to_kmh(decimal_value(digits)))
        } else {
            None
        }
    } else if has_part(text, "kph"@) || has_part(text, "kmh"@) || has_part(text, "km/h"@) {
        parsed_u8(digits)
    } else {
        None
    }
}

/// Whether the speed of a way with this `maxspeed` tag is the default
/// speed of its highway type.
pub open spec fn takes_default_speed(speed: Option<Seq<char>>, walking_speed: u8) -> bool {
    match speed {
        None => true,
        Some(text) => stated_speed(text, walking_speed) is None,
    }
}

/// The speed of a way of type `street_type` with this `maxspeed` tag.
pub open spec fn normalized_speed(
    speed: Option<Seq<char>>,
    street_type: Seq<char>,
    policy: PolicyModel,
) -> u8 {
    match speed {
        None => policy.default_speed(street_type),
        Some(text) => match stated_speed(text, policy.default_walking_speed) {
            Some(stated) => stated,
            None => policy.default_speed(street_type),
        },
    }
}

/// The value of one decimal digit.
fn digit_of(c: char) -> (value: u64)
    requires
        digit_value(c) >= 0,
    ensures
        value == digit_value(c),
{
    if c == '0' {
        0
    } else if c == '1' {
        1
    } else if c == '2' {
        2
    } else if c == '3' {
        3
    } else if c == '4' {
        4
    } else if c == '5' {
        5
    } else if c == '6' {
        6
    } else if c == '7' {
        7
    } else if c == '8' {
        8
    } else {
        9
    }
}

/// The number that a text of decimal digits denotes, or `cap` if that is less.
fn capped_decimal(digits: &str, cap: u64) -> (value: u64)
    requires
        is_digits(digits@),
        cap <= 1_000_000_000,
    ensures
        value == if decimal_value(digits@) < cap {
            decimal_value(digits@)
        } else {
            cap as nat
        },
{
    broadcast use vstd::string::axiom_spec_iter;

    let mut value: u64 = 0;
    assert(digits@.take(0).len() == 0);
    for c in it: digits.chars()
        invariant
            it.seq() == digits@,
            is_digits(digits@),
            cap <= 1_000_000_000,
            value == if decimal_value(digits@.take(it.index())) < cap {
                decimal_value(digits@.take(it.index()))
            } else {
                cap as nat
            },
    {
        proof {
            let before = digits@.take(it.index());
            let after = digits@.take(it.index() + 1);
            assert(after.drop_last() == before);
            assert(after.last() == c);
            assert(digit_value(digits@[it.index()]) >= 0);
        }
        let next = value * 10 + digit_of(c);
        value = if next < cap {
            next
        } else {
            cap
        };
    }
    assert(digits@.take(digits@.len() as int) == digits@);
    value
}

/// What remains of a text when all but the decimal digits are dropped
/// is made of decimal digits.
proof fn lemma_kept_digits(text: Seq<char>)
    ensures
        is_digits(kept_characters(text, "0123456789"@)),
{
    reveal_strlit("0123456789");
    let keep = |c: char| "0123456789"@.contains(c);
    let digits = text.filter(keep);
    assert forall|i: int| 0 <= i < digits.len() implies digit_value(#[trigger] digits[i]) >= 0 by {
        text.lemma_filter_pred(keep, i);
        let c = digits[i];
        assert("0123456789"@.contains(c));
        let j = choose|j: int| 0 <= j < "0123456789"@.len() && "0123456789"@[j] == c;
        assert(0 <= j < 10);
    }
}

/// The speed that the value of a `maxspeed` tag states by itself, if it states one.
///
/// A number below 256 is taken as it is. A value with `walk` in it gives
/// the default walking speed. A value with `mph` or `mp/h` is read as
/// miles per hour: its digits, multiplied by 1.609344, the fraction
/// dropped, at most 255. A value with `kph`, `kmh` or `km/h` gives the
/// number that its digits denote. A value with `none` in it, any other
/// value, and one whose digits denote no speed, states none.
pub fn read_speed(speed_info: &str, default_walking_speed: u8) -> (stated: Option<u8>)
    ensures
        stated == stated_speed(speed_info@, default_walking_speed),
{
    match parse_u8(speed_info) {
        Some(number) => {
            return Some(number);
        },
        None => {},
    }
    if contains_text(speed_info, "walk") {
        Some(default_walking_speed)
    } else if contains_text(speed_info, "none") {
        None
    } else if contains_text(speed_info, "mph") || contains_text(speed_info, "mp/h") {
        let digits = keep_characters(speed_info, "0123456789");
        proof {
            lemma_kept_digits(speed_info@);
        }
        if digits.as_str().is_empty() {
            None
        } else {
            let miles = capped_decimal(digits.as_str(), 1000);
            let kmh = miles * 1609344 / 1000000;
            proof {
                let exact = decimal_value(digits@);
                if exact >= 1000 {
                    assert(exact * 1609344 / 1000000 > 255) by (nonlinear_arith)
                        requires
                            exact >= 1000,
                    ;
                }
            }
            if kmh > 255 {
                Some(255)
            } else {
                Some(kmh as u8)
            }
        }
    } else if contains_text(speed_info, "kph") || contains_text(speed_info, "kmh") || contains_text(
        speed_info,
        "km/h",
    ) {
        let digits = keep_characters(speed_info, "0123456789");
        parse_u8(digits.as_str())
    } else {
        None
    }
}

/// The speed of a way of type `street_type` whose `maxspeed` tag is
/// `speed`: the speed that the tag states, or the default speed of the
/// highway type where there is no tag or it states none.
pub fn parse_speed(
    speed: Option<&String>,
    street_type: &String,
    osm_parse_config: &OSMParseConfig,
) -> (result: u8)
    requires
        takes_default_speed(
            match speed {
                Some(text) => Some(text@),
                None => None,
            },
            osm_parse_config@.default_walking_speed,
        ) ==> osm_parse_config@.has_default_speed(street_type@),
    ensures
        result == normalized_speed(
            match speed {
                Some(text) => Some(text@),
                None => None,
            },
            street_type@,
            osm_parse_config@,
        ),
{
    let stated = match speed {
        None => None,
        Some(text) => read_speed(text.as_str(), osm_parse_config.default_walking_speed()),
    };
    match stated {
        Some(number) => number,
        None => osm_parse_config.default_speed(street_type.as_str()),
    }
}

/// The value of the tag `key`, or the empty text where there is no such tag.
pub open spec fn tag_or_empty(tags: Map<Seq<char>, Seq<char>>, key: Seq<char>) -> Seq<char> {
    if tags.contains_key(key) {
        tags[key]
    } else {
        Seq::<char>::empty()
    }
}

/// The value of the tag `key`, if there is such a tag.
pub open spec fn tag_if_any(tags: Map<Seq<char>, Seq<char>>, key: Seq<char>) -> Option<Seq<char>> {
    if tags.contains_key(key) {
        Some(tags[key])
    } else {
        None
    }
}

/// A way can be travelled in both directions unless its tag `oneway` is `yes`.
pub open spec fn is_two_way(way: RawWay) -> bool {
    !(tag_map(way.tags).contains_key("oneway"@) && tag_map(way.tags)["oneway"@] == "yes"@)
}

/// What the graph builder needs of a way: a first and a last point,
/// both among the points `ids`; a highway tag; and a speed, which the
/// policy must give where the way states none.
pub open spec fn way_fits(way: RawWay, ids: Set<i64>, policy: PolicyModel) -> bool {
    let tags = tag_map(way.tags);
    &&& way.nodes.len() > 0
    &&& ids.contains(way.nodes[0])
    &&& ids.contains(way.nodes[way.nodes.len() - 1])
    &&& tags.contains_key("highway"@)
    &&& takes_default_speed(tag_if_any(tags, "maxspeed"@), policy.default_walking_speed)
        ==> policy.has_default_speed(tags["highway"@])
}

/// The place of each point id in a list of points; the last, where an id
/// stands in the list more than once.
pub open spec fn places(points: Seq<(i64, RawPoint)>) -> Map<i64, int>
    decreases points.len(),
{
    if points.len() == 0 {
        Map::empty()
    } else {
        places(points.drop_last()).insert(points.last().0, points.len() - 1)
    }
}

/// Whether `edge` is the edge that the graph builder makes of `way`: it
/// leads from the way's first point to its last, and carries the way's
/// name, highway type, direction and normalized speed.
pub open spec fn is_edge_of_way(
    edge: EdgeModel<EdgeData>,
    way: RawWay,
    place: Map<i64, int>,
    policy: PolicyModel,
) -> bool {
    let tags = tag_map(way.tags);
    &&& edge.s == place[way.nodes[0]]
    &&& edge.t == place[way.nodes[way.nodes.len() - 1]]
    &&& edge.bidirectional == is_two_way(way)
    &&& edge.data.bidirectional == is_two_way(way)
    &&& edge.data.name@ == tag_or_empty(tags, "name"@)
    &&& edge.data.street_type@ == tags["highway"@]
    &&& edge.data.max_speed == normalized_speed(
        tag_if_any(tags, "maxspeed"@),
        tags["highway"@],
        policy,
    )
}

/// Whether `g` is the graph that the graph builder makes of the points
/// and ways: a node per point and an edge per way, in their order.
pub open spec fn is_built_from(
    g: GraphModel<NodeData, EdgeData>,
    points: Seq<(i64, RawPoint)>,
    ways: Seq<RawWay>,
    policy: PolicyModel,
) -> bool {
    &&& g.nodes.len() == points.len()
    &&& forall|i: int|
        0 <= i < points.len() ==> #[trigger] g.nodes[i] == (NodeData {
            lat: points[i].1.lat,
            lon: points[i].1.lon,
        })
    &&& g.edges.len() == ways.len()
    &&& forall|j: int|
        0 <= j < ways.len() ==> is_edge_of_way(#[trigger] g.edges[j], ways[j], places(points), policy)
}

/// Whether the list holds each entry of the map once.
pub open spec fn enumerates(points: Seq<(i64, RawPoint)>, map: Map<i64, RawPoint>) -> bool {
    &&& forall|i: int|
        0 <= i < points.len() ==> map.contains_key((#[trigger] points[i]).0) && map[points[i].0]
            == points[i].1
    &&& forall|i: int, j: int|
        0 <= i < j < points.len() ==> (#[trigger] points[i]).0 != (#[trigger] points[j]).0
    &&& forall|id: i64|
        map.contains_key(id) ==> exists|i: int| 0 <= i < points.len() && (#[trigger] points[i]).0 == id
}

/// The places are positions in the list of points with that id, and
/// every id of the list has one.
pub proof fn lemma_places(points: Seq<(i64, RawPoint)>)
    ensures
        forall|id: i64| #[trigger]
            places(points).contains_key(id) ==> 0 <= places(points)[id] < points.len()
                && points[places(points)[id]].0 == id,
        forall|i: int| 0 <= i < points.len() ==> places(points).contains_key((#[trigger] points[i]).0),
    decreases points.len(),
{
    if points.len() > 0 {
        let before = points.drop_last();
        lemma_places(before);
        assert forall|id: i64| #[trigger] places(points).contains_key(id) implies 0 <= places(
            points,
        )[id] < points.len() && points[places(points)[id]].0 == id by {
            if id != points.last().0 {
                assert(places(before).contains_key(id));
                assert(before[places(before)[id]] == points[places(before)[id]]);
            }
        }
        assert forall|i: int| 0 <= i < points.len() implies places(points).contains_key(
            (#[trigger] points[i]).0,
        ) by {
            if i < before.len() {
                assert(before[i] == points[i]);
            }
        }
    }
}

/// The graph of the points and ways: a node per point with its position,
/// in the order of the list, and an edge per way, in the order of the
/// list, from the node of the way's first point to that of its last.
pub fn build_graph(points: &Vec<(i64, RawPoint)>, ways: &Vec<RawWay>, config: &OSMParseConfig) -> (g:
    Graph<NodeData, EdgeData>)
    requires
        points.len() <= u32::MAX,
        ways.len() <= u32::MAX,
        forall|j: int|
            0 <= j < ways.len() ==> way_fits(#[trigger] ways[j], places(points@).dom(), config@),
    ensures
        g.wf(),
        g.nodes.len() == points.len(),
        g.edges.len() == ways.len(),
        forall|i: int| 0 <= i < g.nodes.len() ==> (#[trigger] g.nodes[i]).id.0 == i,
        forall|j: int| 0 <= j < g.edges.len() ==> (#[trigger] g.edges[j]).id.0 == j,
        is_built_from(g@, points@, ways@, config@),
{
    broadcast use vstd::std_specs::hash::group_hash_axioms;

    let mut g: Graph<NodeData, EdgeData> = Graph::new();
    let mut node_map: HashMap<i64, u32> = HashMap::new();
    let mut i: usize = 0;
    assert(points@.take(0).len() == 0);
    while i < points.len()
        invariant
            points.len() <= u32::MAX,
            i <= points.len(),
            g.wf(),
            g@.edges.len() == 0,
            g@.nodes.len() == i,
            forall|h: int|
                0 <= h < i ==> #[trigger] g@.nodes[h] == (NodeData {
                    lat: points[h].1.lat,
                    lon: points[h].1.lon,
                }),
            node_map@.dom() == places(points@.take(i as int)).dom(),
            forall|id: i64| #[trigger]
                node_map@.contains_key(id) ==> node_map@[id] == places(points@.take(i as int))[id],
        decreases points.len() - i,
    {
        let (id, point) = points[i];
        let data = NodeData { lat: point.lat, lon: point.lon };
        let ghost before = g@.nodes;
        let new_node_id = g.add_node(data);
        node_map.insert(id, new_node_id.0);
        proof {
            assert(points@.take(i + 1).drop_last() == points@.take(i as int));
            assert(points@.take(i + 1).last() == points[i as int]);
            assert forall|h: int| 0 <= h < i + 1 implies #[trigger] g@.nodes[h] == (NodeData {
                lat: points[h].1.lat,
                lon: points[h].1.lon,
            }) by {
                if h < i {
                    assert(g@.nodes[h] == before[h]);
                }
            }
        }
        i += 1;
    }
    let ghost place = places(points@);
    proof {
        assert(points@.take(points.len() as int) == points@);
        lemma_places(points@);
    }
    let mut j: usize = 0;
    while j < ways.len()
        invariant
            ways.len() <= u32::MAX,
            j <= ways.len(),
            place == places(points@),
            forall|j: int| 0 <= j < ways.len() ==> way_fits(#[trigger] ways[j], place.dom(), config@),
            g.wf(),
            g@.nodes.len() == points.len(),
            forall|h: int|
                0 <= h < points.len() ==> #[trigger] g@.nodes[h] == (NodeData {
                    lat: points[h].1.lat,
                    lon: points[h].1.lon,
                }),
            node_map@.dom() == place.dom(),
            forall|id: i64| #[trigger] node_map@.contains_key(id) ==> node_map@[id] == place[id],
            forall|id: i64| #[trigger] place.contains_key(id) ==> 0 <= place[id] < points.len(),
            g@.edges.len() == j,
            forall|h: int|
                0 <= h < j ==> is_edge_of_way(#[trigger] g@.edges[h], ways[h], place, config@),
        decreases ways.len() - j,
    {
        let way = &ways[j];
        assert(way_fits(ways[j as int], place.dom(), config@));
        let name = match tag_value(&way.tags, "name") {
            Some(text) => text,
            None => String::new(),
        };
        let street_type = match tag_value(&way.tags, "highway") {
            Some(text) => text,
            None => String::new(),
        };
        let speed = tag_value(&way.tags, "maxspeed");
        let max_speed = match &speed {
            Some(text) => parse_speed(Some(text), &street_type, config),
            None => parse_speed(None, &street_type, config),
        };
        let bidirectional = match tag_value(&way.tags, "oneway") {
            Some(text) => !same_text(text.as_str(), "yes"),
            None => true,
        };
        let data = EdgeData { name, street_type, max_speed, bidirectional };
        let first = way.nodes[0];
        let last = way.nodes[way.nodes.len() - 1];
        let s = match node_map.get(&first) {
            Some(number) => *number,
            None => 0,
        };
        let t = match node_map.get(&last) {
            Some(number) => *number,
            None => 0,
        };
        let ghost before = g@.edges;
        g.add_edge(GraphNodeId(s), GraphNodeId(t), data, bidirectional);
        proof {
            assert forall|h: int| 0 <= h < j + 1 implies is_edge_of_way(
                #[trigger] g@.edges[h],
                ways[h],
                place,
                config@,
            ) by {
                if h < j {
                    assert(g@.edges[h] == before[h]);
                }
            }
        }
        j += 1;
    }
    g
}

/// The points of the map, each with its id, in the order in which the map hands them out.
fn points_in_order(nodes: &HashMap<i64, RawPoint>) -> (points: Vec<(i64, RawPoint)>)
    ensures
        enumerates(points@, nodes@),
        points.len() == nodes@.dom().len(),
{
    broadcast use vstd::std_specs::hash::group_hash_axioms;
    broadcast use vstd::std_specs::hash::axiom_spec_hash_map_iter;

    let mut points: Vec<(i64, RawPoint)> = Vec::new();
    for entry in it: nodes.iter()
        invariant
            it.seq() == vstd::std_specs::hash::spec_hash_map_iter(nodes).remaining(),
            it.seq().no_duplicates(),
            points.len() == it.index(),
            forall|i: int|
                0 <= i < points.len() ==> (#[trigger] points[i]).0 == *it.seq()[i].0 && points[i].1
                    == *it.seq()[i].1,
    {
        let (id, point) = entry;
        points.push((*id, *point));
    }
    proof {
        let listed = vstd::std_specs::hash::spec_hash_map_iter(nodes).remaining();
        assert forall|i: int, j: int| 0 <= i < j < points.len() implies (#[trigger] points[i]).0
            != (#[trigger] points[j]).0 by {
            assert(nodes@.contains_key(*listed[i].0) && nodes@[*listed[i].0] == *listed[i].1);
            assert(nodes@.contains_key(*listed[j].0) && nodes@[*listed[j].0] == *listed[j].1);
            if points[i].0 == points[j].0 {
                assert(listed[i] == listed[j]);
            }
        }
        assert forall|id: i64| nodes@.contains_key(id) implies exists|i: int|
            0 <= i < points.len() && (#[trigger] points[i]).0 == id by {
            assert(listed.contains((&id, &nodes@[id])));
            let i = choose|i: int| 0 <= i < listed.len() && listed[i] == (&id, &nodes@[id]);
            assert(points[i].0 == id);
        }
    }
    points
}

/// The graph builder: a node per point and an edge per way. The nodes
/// stand in the order in which the map hands out its points, which is
/// not fixed; the edges stand in the order of the ways.
pub fn convert(
    nodes: HashMap<i64, RawPoint>,
    ways: Vec<RawWay>,
    osm_parse_config: &OSMParseConfig,
) -> (g: Graph<NodeData, EdgeData>)
    requires
        nodes@.dom().len() <= u32::MAX,
        ways.len() <= u32::MAX,
        forall|j: int|
            0 <= j < ways.len() ==> way_fits(#[trigger] ways[j], nodes@.dom(), osm_parse_config@),
    ensures
        g.wf(),
        g.nodes.len() == nodes@.dom().len(),
        g.edges.len() == ways.len(),
        forall|i: int| 0 <= i < g.nodes.len() ==> (#[trigger] g.nodes[i]).id.0 == i,
        forall|j: int| 0 <= j < g.edges.len() ==> (#[trigger] g.edges[j]).id.0 == j,
        exists|points: Seq<(i64, RawPoint)>|
            enumerates(points, nodes@) && #[trigger] is_built_from(
                g@,
                points,
                ways@,
                osm_parse_config@,
            ),
{
    let points = points_in_order(&nodes);
    proof {
        lemma_places(points@);
        assert(places(points@).dom() =~= nodes@.dom());
    }
    let g = build_graph(&points, &ways, osm_parse_config);
    assert(enumerates(points@, nodes@) && is_built_from(g@, points@, ways@, osm_parse_config@));
    g
}

/// Whether the graph builder can deal with the way.
fn way_can_be_converted(
    nodes: &HashMap<i64, RawPoint>,
    way: &RawWay,
    osm_parse_config: &OSMParseConfig,
) -> (fits: bool)
    ensures
        fits == way_fits(*way, nodes@.dom(), osm_parse_config@),
{
    broadcast use vstd::std_specs::hash::group_hash_axioms;

    if way.nodes.len() == 0 {
        return false;
    }
    let first = way.nodes[0];
    let last = way.nodes[way.nodes.len() - 1];
    if !nodes.contains_key(&first) || !nodes.contains_key(&last) {
        return false;
    }
    let street_type = match tag_value(&way.tags, "highway") {
        Some(text) => text,
        None => {
            return false;
        },
    };
    let stated = match tag_value(&way.tags, "maxspeed") {
        Some(text) => read_speed(text.as_str(), osm_parse_config.default_walking_speed()),
        None => None,
    };
    stated.is_some() || osm_parse_config.has_default_speed(street_type.as_str())
}

/// Whether [`convert`] can be called with these points and ways: there
/// are no more of either than fit in a node or edge id, and every way
/// has a first and a last point among the points, a highway tag, and a
/// speed.
pub fn can_convert(
    nodes: &HashMap<i64, RawPoint>,
    ways: &Vec<RawWay>,
    osm_parse_config: &OSMParseConfig,
) -> (possible: bool)
    ensures
        possible == (nodes@.dom().len() <= u32::MAX && ways.len() <= u32::MAX && forall|j: int|
            0 <= j < ways.len() ==> way_fits(#[trigger] ways[j], nodes@.dom(), osm_parse_config@)),
{
    broadcast use vstd::std_specs::hash::group_hash_axioms;

    if nodes.len() > u32::MAX as usize || ways.len() > u32::MAX as usize {
        return false;
    }
    let mut j: usize = 0;
    while j < ways.len()
        invariant
            j <= ways.len(),
            forall|h: int|
                0 <= h < j ==> way_fits(#[trigger] ways[h], nodes@.dom(), osm_parse_config@),
        decreases ways.len() - j,
    {
        if !way_can_be_converted(nodes, &ways[j], osm_parse_config) {
            return false;
        }
        j += 1;
    }
    true
}

/// The graph builder for points and ways of which nothing is known:
/// the graph of [`convert`] where [`can_convert`] holds, and nothing
/// where it does not.
pub fn try_convert(
    nodes: HashMap<i64, RawPoint>,
    ways: Vec<RawWay>,
    osm_parse_config: &OSMParseConfig,
) -> (built: Option<Graph<NodeData, EdgeData>>)
    ensures
        built is Some <==> (nodes@.dom().len() <= u32::MAX && ways.len() <= u32::MAX && forall|
            j: int,
        |
            0 <= j < ways.len() ==> way_fits(#[trigger] ways[j], nodes@.dom(), osm_parse_config@)),
        built matches Some(g) ==> g.wf() && g.nodes.len() == nodes@.dom().len() && g.edges.len()
            == ways.len() && exists|points: Seq<(i64, RawPoint)>|
            enumerates(points, nodes@) && #[trigger] is_built_from(
                g@,
                points,
                ways@,
                osm_parse_config@,
            ),
{
    if can_convert(&nodes, &ways, osm_parse_config) {
        Some(convert(nodes, ways, osm_parse_config))
    } else {
        None
    }
}

/// What the feasibility filter keeps, the graph builder can take: an
/// admissible way with at least one point fits, if the policy has the
/// entry `unknown` to fall back on.
pub proof fn lemma_admissible_way_fits(
    way: RawWay,
    points: Set<i64>,
    policy: PolicyModel,
    mode: crate::network_type::NetworkType,
)
    requires
        way.is_admissible(points, policy, mode),
        way.nodes.len() > 0,
        policy.max_speed.contains_key("unknown"@),
    ensures
        way_fits(way, points, policy),
{
    assert(points.contains(way.nodes[0]));
    assert(points.contains(way.nodes[way.nodes.len() - 1]));
}

} // verus!
