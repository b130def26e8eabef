//! The access policy: which highways each means of travel may use, the
//! default speed of each highway type, and the default walking speed.

use crate::lookup::{find_speed, has_text, speed_map, text_set};
use crate::network_type::NetworkType;
use vstd::prelude::*;

verus! {

/// The access policy of a run.
pub struct OSMParseConfig {
    allowed_highways: Vec<(NetworkType, Vec<String>)>,
    max_speed: Vec<(String, u8)>,
    default_walking_speed: u8,
}

/// What an `OSMParseConfig` says.
pub struct PolicyModel {
    /// For each means of travel, the highway types that it may use.
    pub allowed_highways: Map<NetworkType, Set<Seq<char>>>,
    /// The default speed of each highway type.
    pub max_speed: Map<Seq<char>, u8>,
    pub default_walking_speed: u8,
}

/// The table of permitted highways that a list of entries stands for: a
/// later entry replaces an earlier one for the same means of travel.
pub open spec fn allowed_by_type(entries: Seq<(NetworkType, Vec<String>)>) -> Map<
    NetworkType,
    Set<Seq<char>>,
>
    decreases entries.len(),
{
    if entries.len() == 0 {
        Map::empty()
    } else {
        allowed_by_type(entries.drop_last()).insert(entries.last().0, text_set(entries.last().1@))
    }
}

impl PolicyModel {
    /// Whether the means of travel `key` may use highways of type `value`.
    pub open spec fn allows(self, key: NetworkType, value: Seq<char>) -> bool {
        self.allowed_highways.contains_key(key) && self.allowed_highways[key].contains(value)
    }

    /// Whether a default speed can be had for `street_type`: its own, or
    /// that of the entry `unknown`.
    pub open spec fn has_default_speed(self, street_type: Seq<char>) -> bool {
        self.max_speed.contains_key(street_type) || self.max_speed.contains_key("unknown"@)
    }

    /// The default speed for `street_type`: its own, or else that of the entry `unknown`.
    pub open spec fn default_speed(self, street_type: Seq<char>) -> u8 {
        if self.max_speed.contains_key(street_type) {
            self.max_speed[street_type]
        } else {
            self.max_speed["unknown"@]
        }
    }
}

impl View for OSMParseConfig {
    type V = PolicyModel;

    closed spec fn view(&self) -> PolicyModel {
        PolicyModel {
            allowed_highways: allowed_by_type(self.allowed_highways@),
            max_speed: speed_map(self.max_speed@),
            default_walking_speed: self.default_walking_speed,
        }
    }
}

impl OSMParseConfig {
    /// A policy from its tables. In each list a later entry replaces an
    /// earlier one with the same key.
    pub fn new(
        allowed_highways: Vec<(NetworkType, Vec<String>)>,
        max_speed: Vec<(String, u8)>,
        default_walking_speed: u8,
    ) -> (config: OSMParseConfig)
        ensures
            config@ == (PolicyModel {
                allowed_highways: allowed_by_type(allowed_highways@),
                max_speed: speed_map(max_speed@),
                default_walking_speed,
            }),
    {
        OSMParseConfig { allowed_highways, max_speed, default_walking_speed }
    }

    /// Whether the means of travel `key` may use highways of type `value`.
    /// A means of travel without an entry may use none.
    pub fn is_allowed(&self, key: &NetworkType, value: &str) -> (allowed: bool)
        ensures
            allowed == self@.allows(*key, value@),
    {
        let mut i: usize = self.allowed_highways.len();
        assert(self.allowed_highways@.take(i as int) == self.allowed_highways@);
        while i > 0
            invariant
                i <= self.allowed_highways.len(),
                self@.allows(*key, value@) == (allowed_by_type(
                    self.allowed_highways@.take(i as int),
                ).contains_key(*key) && allowed_by_type(
                    self.allowed_highways@.take(i as int),
                )[*key].contains(value@)),
            decreases i,
        {
            i -= 1;
            proof {
                let list = self.allowed_highways@;
                assert(list.take(i + 1).drop_last() == list.take(i as int));
                assert(list.take(i + 1).last() == list[i as int]);
            }
            if self.allowed_highways[i].0 == *key {
                return has_text(&self.allowed_highways[i].1, value);
            }
        }
        assert(self.allowed_highways@.take(0).len() == 0);
        false
    }

    /// The speed of a pedestrian.
    pub fn default_walking_speed(&self) -> (speed: u8)
        ensures
            speed == self@.default_walking_speed,
    {
        self.default_walking_speed
    }

    /// Whether [`OSMParseConfig::default_speed`] can be asked for `street_type`.
    pub fn has_default_speed(&self, street_type: &str) -> (known: bool)
        ensures
            known == self@.has_default_speed(street_type@),
    {
        find_speed(&self.max_speed, street_type).is_some() || find_speed(
            &self.max_speed,
            "unknown",
        ).is_some()
    }

    /// The default speed for a highway type: its own entry, or else the entry `unknown`.
    pub fn default_speed(&self, street_type: &str) -> (speed: u8)
        requires
            self@.has_default_speed(street_type@),
        ensures
            speed == self@.default_speed(street_type@),
    {
        match find_speed(&self.max_speed, street_type) {
            Some(speed) => speed,
            None => {
                match find_speed(&self.max_speed, "unknown") {
                    Some(speed) => speed,
                    None => 0,
                }
            },
        }
    }
}

} // verus!
