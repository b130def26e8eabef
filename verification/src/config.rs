//! Access rules and speeds, with the permitted highways filed under the
//! name of a means of travel.

use crate::lookup::{find_speed, has_text, speed_map, text_set};
use crate::util::same_text;
use vstd::prelude::*;

verus! {

/// Access rules and speeds. The means of travel are told apart by their names.
pub struct Config {
    allowed_highways: Vec<(String, Vec<String>)>,
    max_speed: Vec<(String, u8)>,
    default_walking_speed: u8,
}

/// What a `Config` says.
pub struct ConfigModel {
    /// For each means of travel, the highway types that it may use.
    pub allowed_highways: Map<Seq<char>, Set<Seq<char>>>,
    /// The default speed of each highway type.
    pub max_speed: Map<Seq<char>, u8>,
    pub default_walking_speed: u8,
}

/// The table of permitted highways that a list of entries stands for: a
/// later entry replaces an earlier one with the same key.
pub open spec fn allowed_map(entries: Seq<(String, Vec<String>)>) -> Map<Seq<char>, Set<Seq<char>>>
    decreases entries.len(),
{
    if entries.len() == 0 {
        Map::empty()
    } else {
        allowed_map(entries.drop_last()).insert(entries.last().0@, text_set(entries.last().1@))
    }
}

impl ConfigModel {
    /// Whether the means of travel `key` may use highways of type `value`.
    pub open spec fn allows(self, key: Seq<char>, value: Seq<char>) -> bool {
        self.allowed_highways.contains_key(key) && self.allowed_highways[key].contains(value)
    }

    /// Whether a default speed can be had for `street_type`: its own, or
    /// that of the entry `unknown`.
    pub open spec fn has_default_speed(self, street_type: Seq<char>) -> bool {
        self.max_speed.contains_key(street_type) || self.max_speed.contains_key("unknown"@)
    }

    /// The default speed for `street_type`: its own, or else that of the entry `unknown`.
    pub open spec fn default_speed(self, street_type: Seq<char>) -> u8 {
        if self.max_speed.contains_key(street_type) {
            self.max_speed[street_type]
        } else {
            self.max_speed["unknown"@]
        }
    }
}

impl View for Config {
    type V = ConfigModel;

    closed spec fn view(&self) -> ConfigModel {
        ConfigModel {
            allowed_highways: allowed_map(self.allowed_highways@),
            max_speed: speed_map(self.max_speed@),
            default_walking_speed: self.default_walking_speed,
        }
    }
}

impl Config {
    /// A configuration from its tables. In each list a later entry
    /// replaces an earlier one with the same key.
    pub fn new(
        allowed_highways: Vec<(String, Vec<String>)>,
        max_speed: Vec<(String, u8)>,
        default_walking_speed: u8,
    ) -> (config: Config)
        ensures
            config@ == (ConfigModel {
                allowed_highways: allowed_map(allowed_highways@),
                max_speed: speed_map(max_speed@),
                default_walking_speed,
            }),
    {
        Config { allowed_highways, max_speed, default_walking_speed }
    }

    /// Whether the means of travel `key` may use highways of type `value`.
    /// A means of travel without an entry may use none.
    pub fn is_allowed(&self, key: &str, value: &str) -> (allowed: bool)
        ensures
            allowed == self@.allows(key@, value@),
    {
        let mut i: usize = self.allowed_highways.len();
        assert(self.allowed_highways@.take(i as int) == self.allowed_highways@);
        while i > 0
            invariant
                i <= self.allowed_highways.len(),
                self@.allows(key@, value@) == (allowed_map(
                    self.allowed_highways@.take(i as int),
                ).contains_key(key@) && allowed_map(self.allowed_highways@.take(i as int))[key@].contains(
                    value@,
                )),
            decreases i,
        {
            i -= 1;
            proof {
                let list = self.allowed_highways@;
                assert(list.take(i + 1).drop_last() == list.take(i as int));
                assert(list.take(i + 1).last() == list[i as int]);
            }
            if same_text(self.allowed_highways[i].0.as_str(), key) {
                return has_text(&self.allowed_highways[i].1, value);
            }
        }
        assert(self.allowed_highways@.take(0).len() == 0);
        false
    }

    /// The speed of a pedestrian.
    pub fn default_walking_speed(&self) -> (speed: u8)
        ensures
            speed == self@.default_walking_speed,
    {
        self.default_walking_speed
    }

    /// Whether [`Config::default_speed`] can be asked for `street_type`.
    pub fn has_default_speed(&self, street_type: &str) -> (known: bool)
        ensures
            known == self@.has_default_speed(street_type@),
    {
        find_speed(&self.max_speed, street_type).is_some() || find_speed(
            &self.max_speed,
            "unknown",
        ).is_some()
    }

    /// The default speed for a highway type: its own entry, or else the entry `unknown`.
    pub fn default_speed(&self, street_type: &String) -> (speed: u8)
        requires
            self@.has_default_speed(street_type@),
        ensures
            speed == self@.default_speed(street_type@),
    {
        match find_speed(&self.max_speed, street_type.as_str()) {
            Some(speed) => speed,
            None => {
                match find_speed(&self.max_speed, "unknown") {
                    Some(speed) => speed,
                    None => 0,
                }
            },
        }
    }
}

} // verus!
