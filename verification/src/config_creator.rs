//! The table of permitted highways of a `Config`, from the entries of a
//! configuration file.

use crate::osm_parse_config_creator::is_split;
use crate::util::split_list;
use vstd::prelude::*;

verus! {

/// The table of permitted highways: for each entry its key, and the
/// pieces of its list of highway types.
pub fn parse_allowed_highways(entries: &Vec<(String, String)>) -> (allowed: Vec<
    (String, Vec<String>),
>)
    ensures
        allowed.len() == entries.len(),
        forall|i: int|
            0 <= i < allowed.len() ==> (#[trigger] allowed[i]).0@ == entries[i].0@ && is_split(
                entries[i].1@,
                allowed[i].1@,
            ),
{
    let mut allowed: Vec<(String, Vec<String>)> = Vec::new();
    let mut i: usize = 0;
    while i < entries.len()
        invariant
            i <= entries.len(),
            allowed.len() == i,
            forall|h: int|
                0 <= h < i ==> (#[trigger] allowed[h]).0@ == entries[h].0@ && is_split(
                    entries[h].1@,
                    allowed[h].1@,
                ),
        decreases entries.len() - i,
    {
        let types = split_list(entries[i].1.as_str());
        allowed.push((entries[i].0.clone(), types));
        i += 1;
    }
    allowed
}

} // verus!
