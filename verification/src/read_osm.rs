//! Raw map data and the feasibility filter: which ways a means of travel
//! may use, and which points these ways need.

use crate::network_type::NetworkType;
use crate::osm_parse_config::{OSMParseConfig, PolicyModel};
use crate::util::same_text;
use osmpbfreader::Tags;
use std::collections::HashMap;
use vstd::prelude::*;

verus! {

/// The tags of a map element as `osmpbfreader` holds them: a map from
/// keys to values whose inside is not looked at here.
#[verifier::external_type_specification]
#[verifier::external_body]
pub struct ExTags(Tags);

/// What the tags hold: the value under each key.
pub uninterp spec fn tag_map(tags: Tags) -> Map<Seq<char>, Seq<char>>;

/// The value that the tags hold under `key`, if they hold one. This
/// calls `FlatMap::get` on the map inside the tags, which looks for the
/// entry with that key in a vector kept sorted by key; the value that it
/// finds is copied. Taken on trust: that the call finds the value exactly
/// if the tags hold one under this key.
#[verifier::external_body]
pub(crate) fn tag_value(tags: &Tags, key: &str) -> (value: Option<String>)
    ensures
        value is Some <==> tag_map(*tags).contains_key(key@),
        value matches Some(text) ==> text@ == tag_map(*tags)[key@],
{
    tags.get(key).map(|text| text.to_string())
}

/// A point of the map.
#[derive(Debug, Copy, Clone, PartialEq, Eq, Structural)]
pub struct RawPoint {
    pub id: i64,
    /// The latitude in units of 10⁻⁷ degrees.
    pub lat: i32,
    /// The longitude in units of 10⁻⁷ degrees.
    pub lon: i32,
}

/// A way of the map: the ids of the points it runs through, and its tags.
pub struct RawWay {
    pub nodes: Vec<i64>,
    pub tags: Tags,
}

impl RawWay {
    /// Whether the way is tagged as an area.
    pub open spec fn is_area(self) -> bool {
        tag_map(self.tags).contains_key("area"@) && tag_map(self.tags)["area"@] == "yes"@
    }

    /// Whether the way runs through the point `id`.
    pub open spec fn touches(self, id: i64) -> bool {
        exists|k: int| 0 <= k < self.nodes.len() && #[trigger] self.nodes[k] == id
    }

    /// Whether the means of travel `mode` may use the way: all its points
    /// are among `points`, it is no area, and it has a highway tag that
    /// the policy permits.
    pub open spec fn is_admissible(
        self,
        points: Set<i64>,
        policy: PolicyModel,
        mode: NetworkType,
    ) -> bool {
        &&& forall|k: int| 0 <= k < self.nodes.len() ==> points.contains(#[trigger] self.nodes[k])
        &&& !self.is_area()
        &&& tag_map(self.tags).contains_key("highway"@)
        &&& policy.allows(mode, tag_map(self.tags)["highway"@])
    }
}

/// Whether one of the ways runs through the point `id`.
pub open spec fn is_referenced(ways: Seq<RawWay>, id: i64) -> bool {
    exists|j: int| 0 <= j < ways.len() && (#[trigger] ways[j]).touches(id)
}

/// Whether all points of the way are keys of one of the two maps.
fn has_all_points(left: &HashMap<i64, RawPoint>, right: &HashMap<i64, RawPoint>, way: &RawWay) -> (all: bool)
    ensures
        all == forall|k: int|
            0 <= k < way.nodes.len() ==> left@.contains_key(#[trigger] way.nodes[k])
                || right@.contains_key(way.nodes[k]),
{
    broadcast use vstd::std_specs::hash::group_hash_axioms;

    let mut k: usize = 0;
    while k < way.nodes.len()
        invariant
            k <= way.nodes.len(),
            forall|h: int|
                0 <= h < k ==> left@.contains_key(#[trigger] way.nodes[h]) || right@.contains_key(
                    way.nodes[h],
                ),
        decreases way.nodes.len() - k,
    {
        let id = way.nodes[k];
        if !(left.contains_key(&id) || right.contains_key(&id)) {
            return false;
        }
        k += 1;
    }
    true
}

/// Whether the means of travel may use the way, where the points of the
/// map are those filed in one of the two maps.
fn way_is_admissible(
    left: &HashMap<i64, RawPoint>,
    right: &HashMap<i64, RawPoint>,
    way: &RawWay,
    config: &OSMParseConfig,
    network_type: &NetworkType,
) -> (admissible: bool)
    ensures
        admissible == way.is_admissible(left@.dom().union(right@.dom()), config@, *network_type),
{
    let all_nodes_available = has_all_points(left, right, way);
    let is_area = match tag_value(&way.tags, "area") {
        Some(value) => same_text(value.as_str(), "yes"),
        None => false,
    };
    let allowed_highway = match tag_value(&way.tags, "highway") {
        Some(value) => config.is_allowed(network_type, value.as_str()),
        None => false,
    };
    all_nodes_available && !is_area && allowed_highway
}

/// The feasibility filter. Of the ways it keeps those that the means of
/// travel may use, in reverse order; of the points it keeps those that a
/// kept way runs through.
pub fn filter_nodes_and_ways(
    nodes: HashMap<i64, RawPoint>,
    ways: Vec<RawWay>,
    config: &OSMParseConfig,
    network_type: &NetworkType,
) -> (kept: (HashMap<i64, RawPoint>, Vec<RawWay>))
    ensures
        kept.1@ == ways@.reverse().filter(
            |way: RawWay| way.is_admissible(nodes@.dom(), config@, *network_type),
        ),
        kept.0@ == nodes@.restrict(Set::new(|id: i64| is_referenced(kept.1@, id))),
        forall|j: int, k: int|
            0 <= j < kept.1.len() && 0 <= k < kept.1[j].nodes.len() ==> kept.0@.contains_key(
                #[trigger] kept.1[j].nodes[k],
            ),
{
    broadcast use vstd::std_specs::hash::group_hash_axioms;

    let ghost all_points = nodes@;
    let ghost all_ways = ways@;
    let ghost admissible = |way: RawWay| way.is_admissible(all_points.dom(), config@, *network_type);
    let ghost mut taken: Set<i64> = Set::empty();
    let mut nodes = nodes;
    let mut ways = ways;
    let mut ways_filtered: Vec<RawWay> = Vec::new();
    let mut nodes_filtered: HashMap<i64, RawPoint> = HashMap::new();
    proof {
        assert(all_ways.subrange(all_ways.len() as int, all_ways.len() as int).reverse()
            =~= Seq::<RawWay>::empty());
        assert(Seq::<RawWay>::empty().filter(admissible) == Seq::<RawWay>::empty()) by {
            reveal(Seq::filter);
        }
        assert(nodes_filtered@ =~= all_points.restrict(taken));
        assert(nodes@ =~= all_points.remove_keys(taken));
    }
    while ways.len() > 0
        invariant
            admissible == (|way: RawWay|
                way.is_admissible(all_points.dom(), config@, *network_type)),
            ways.len() <= all_ways.len(),
            ways@ == all_ways.take(ways.len() as int),
            ways_filtered@ == all_ways.subrange(
                ways.len() as int,
                all_ways.len() as int,
            ).reverse().filter(admissible),
            nodes_filtered@ == all_points.restrict(taken),
            nodes@ == all_points.remove_keys(taken),
            forall|id: i64| #[trigger] taken.contains(id) <==> is_referenced(ways_filtered@, id),
            forall|j: int, k: int|
                0 <= j < ways_filtered.len() && 0 <= k < ways_filtered[j].nodes.len()
                    ==> all_points.contains_key(#[trigger] ways_filtered[j].nodes[k]),
        decreases ways.len(),
    {
        let ghost rest = ways.len() - 1;
        let ghost done = all_ways.subrange(ways.len() as int, all_ways.len() as int).reverse();
        let ghost kept_before = ways_filtered@;
        let ghost taken_before = taken;
        let way = ways.pop().unwrap();
        proof {
            assert(way == all_ways[rest]);
            assert(ways@ =~= all_ways.take(rest));
            assert(all_ways.subrange(rest, all_ways.len() as int).reverse() =~= done.push(way));
            done.lemma_filter_push(way, admissible);
            assert(nodes@.dom().union(nodes_filtered@.dom()) =~= all_points.dom());
        }
        let way_ok = way_is_admissible(&nodes, &nodes_filtered, &way, config, network_type);
        if way_ok {
            let mut k: usize = 0;
            while k < way.nodes.len()
                invariant
                    k <= way.nodes.len(),
                    forall|h: int|
                        0 <= h < way.nodes.len() ==> all_points.contains_key(#[trigger] way.nodes[h]),
                    nodes_filtered@ == all_points.restrict(taken),
                    nodes@ == all_points.remove_keys(taken),
                    forall|id: i64|
                        #[trigger] taken.contains(id) <==> taken_before.contains(id) || exists|h: int|
                            0 <= h < k && #[trigger] way.nodes[h] == id,
                decreases way.nodes.len() - k,
            {
                let id = way.nodes[k];
                let ghost left = nodes@;
                let ghost right = nodes_filtered@;
                let ghost taken_so_far = taken;
                let removed = nodes.remove(&id);
                match removed {
                    Some(point) => {
                        nodes_filtered.insert(id, point);
                    },
                    None => {},
                }
                proof {
                    assert(all_points.contains_key(way.nodes[k as int]));
                    taken = taken_so_far.insert(id);
                    assert(nodes@ =~= all_points.remove_keys(taken));
                    assert(nodes_filtered@ =~= all_points.restrict(taken));
                    assert forall|other: i64| #[trigger]
                        taken.contains(other) <==> taken_before.contains(other) || exists|h: int|
                            0 <= h < k + 1 && #[trigger] way.nodes[h] == other by {
                        if taken_so_far.contains(other) && !taken_before.contains(other) {
                            let h = choose|h: int| 0 <= h < k && #[trigger] way.nodes[h] == other;
                            assert(0 <= h < k + 1 && way.nodes[h] == other);
                        }
                        if exists|h: int| 0 <= h < k + 1 && #[trigger] way.nodes[h] == other {
                            let h = choose|h: int| 0 <= h < k + 1 && #[trigger] way.nodes[h] == other;
                            if h < k {
                                assert(taken_so_far.contains(other));
                            }
                        }
                    }
                }
                k += 1;
            }
            ways_filtered.push(way);
            proof {
                assert forall|id: i64| #[trigger] taken.contains(id) <==> is_referenced(
                    ways_filtered@,
                    id,
                ) by {
                    if is_referenced(ways_filtered@, id) {
                        let j = choose|j: int|
                            0 <= j < ways_filtered@.len() && (#[trigger] ways_filtered@[j]).touches(id);
                        if j < kept_before.len() {
                            assert(kept_before[j].touches(id));
                        } else {
                            assert(way.touches(id));
                        }
                    }
                    if taken_before.contains(id) {
                        let j = choose|j: int|
                            0 <= j < kept_before.len() && (#[trigger] kept_before[j]).touches(id);
                        assert(ways_filtered@[j].touches(id));
                    }
                    if way.touches(id) {
                        assert(ways_filtered@[kept_before.len() as int].touches(id));
                    }
                }
            }
        }
    }
    proof {
        assert(all_ways.subrange(0, all_ways.len() as int) =~= all_ways);
        assert(taken =~= Set::new(|id: i64| is_referenced(ways_filtered@, id)));
        assert forall|j: int, k: int|
            0 <= j < ways_filtered.len() && 0 <= k < ways_filtered[j].nodes.len() implies nodes_filtered@.contains_key(
            #[trigger] ways_filtered[j].nodes[k],
        ) by {
            let id = ways_filtered[j].nodes[k];
            assert(ways_filtered@[j].touches(id));
        }
    }
    (nodes_filtered, ways_filtered)
}

} // verus!
