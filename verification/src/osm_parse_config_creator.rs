//! The tables of the access policy, from the entries of a configuration
//! file: the highways of a means of travel are written as one text with
//! a comma and a blank between each two, and speeds as whole numbers.

use crate::network_type::{get_network_type, named_network_type, NetworkType};
use crate::util::{has_separator, joined, split_list, texts};
use vstd::prelude::*;

verus! {

/// The number below 256 that differs from `value` by a multiple of 256.
pub open spec fn low_byte(value: i64) -> u8 {
    (value as int % 256) as u8
}

/// Whether `pieces` are the pieces of the list `text`.
pub open spec fn is_split(text: Seq<char>, pieces: Seq<String>) -> bool {
    &&& pieces.len() >= 1
    &&& joined(texts(pieces)) == text
    &&& forall|k: int| 0 <= k < pieces.len() ==> !has_separator(#[trigger] pieces[k]@)
}

/// The table of permitted highways: for each entry the means of travel
/// that its key names, and the pieces of its list of highway types.
pub fn parse_allowed_highways(entries: &Vec<(String, String)>) -> (allowed: Vec<
    (NetworkType, Vec<String>),
>)
    requires
        forall|i: int| 0 <= i < entries.len() ==> named_network_type((#[trigger] entries[i]).0@) is Some,
    ensures
        allowed.len() == entries.len(),
        forall|i: int|
            0 <= i < allowed.len() ==> Some((#[trigger] allowed[i]).0) == named_network_type(
                entries[i].0@,
            ) && is_split(entries[i].1@, allowed[i].1@),
{
    let mut allowed: Vec<(NetworkType, Vec<String>)> = Vec::new();
    let mut i: usize = 0;
    while i < entries.len()
        invariant
            i <= entries.len(),
            allowed.len() == i,
            forall|i: int|
                0 <= i < entries.len() ==> named_network_type((#[trigger] entries[i]).0@) is Some,
            forall|h: int|
                0 <= h < i ==> Some((#[trigger] allowed[h]).0) == named_network_type(entries[h].0@)
                    && is_split(entries[h].1@, allowed[h].1@),
        decreases entries.len() - i,
    {
        let types = split_list(entries[i].1.as_str());
        let network_type = get_network_type(entries[i].0.as_str());
        allowed.push((network_type, types));
        i += 1;
    }
    allowed
}

/// A speed of the configuration file as a speed of the policy: the
/// number itself if it is below 256, else what is left of it when
/// multiples of 256 are taken away.
pub fn parse_default_walking_speed(speed: i64) -> (result: u8)
    ensures
        result == low_byte(speed),
{
    let rest = speed % 256;
    if rest < 0 {
        (rest + 256) as u8
    } else {
        rest as u8
    }
}

/// The table of default speeds: for each entry its highway type and its speed.
pub fn parse_max_speeds(entries: &Vec<(String, i64)>) -> (max_speed: Vec<(String, u8)>)
    ensures
        max_speed.len() == entries.len(),
        forall|i: int|
            0 <= i < max_speed.len() ==> (#[trigger] max_speed[i]).0@ == entries[i].0@
                && max_speed[i].1 == low_byte(entries[i].1),
{
    let mut max_speed: Vec<(String, u8)> = Vec::new();
    let mut i: usize = 0;
    while i < entries.len()
        invariant
            i <= entries.len(),
            max_speed.len() == i,
            forall|h: int|
                0 <= h < i ==> (#[trigger] max_speed[h]).0@ == entries[h].0@ && max_speed[h].1
                    == low_byte(entries[h].1),
        decreases entries.len() - i,
    {
        let speed = parse_default_walking_speed(entries[i].1);
        max_speed.push((entries[i].0.clone(), speed));
        i += 1;
    }
    max_speed
}

} // verus!
