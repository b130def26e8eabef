//! Tables that are keyed by a text: lists of entries in which a later
//! entry replaces an earlier one with the same key.

use crate::util::same_text;
use vstd::prelude::*;

verus! {

/// The texts of a list, as a set.
pub open spec fn text_set(values: Seq<String>) -> Set<Seq<char>> {
    Set::new(|text: Seq<char>| exists|i: int| 0 <= i < values.len() && (#[trigger] values[i])@ == text)
}

/// The speed table that a list of entries stands for.
pub open spec fn speed_map(entries: Seq<(String, u8)>) -> Map<Seq<char>, u8>
    decreases entries.len(),
{
    if entries.len() == 0 {
        Map::empty()
    } else {
        speed_map(entries.drop_last()).insert(entries.last().0@, entries.last().1)
    }
}

/// Tells whether `value` is one of `values`.
pub fn has_text(values: &Vec<String>, value: &str) -> (found: bool)
    ensures
        found == text_set(values@).contains(value@),
{
    let mut i: usize = 0;
    while i < values.len()
        invariant
            i <= values.len(),
            forall|h: int| 0 <= h < i ==> (#[trigger] values[h])@ != value@,
        decreases values.len() - i,
    {
        if same_text(values[i].as_str(), value) {
            return true;
        }
        i += 1;
    }
    false
}

/// The speed that the table gives for `key`.
pub fn find_speed(entries: &Vec<(String, u8)>, key: &str) -> (found: Option<u8>)
    ensures
        found is Some <==> speed_map(entries@).contains_key(key@),
        found matches Some(speed) ==> speed == speed_map(entries@)[key@],
{
    let mut i: usize = entries.len();
    assert(entries@.take(i as int) == entries@);
    while i > 0
        invariant
            i <= entries.len(),
            speed_map(entries@).contains_key(key@) == speed_map(entries@.take(i as int)).contains_key(
                key@,
            ),
            speed_map(entries@).contains_key(key@) ==> speed_map(entries@)[key@] == speed_map(
                entries@.take(i as int),
            )[key@],
        decreases i,
    {
        i -= 1;
        proof {
            assert(entries@.take(i + 1).drop_last() == entries@.take(i as int));
            assert(entries@.take(i + 1).last() == entries[i as int]);
        }
        if same_text(entries[i].0.as_str(), key) {
            return Some(entries[i].1);
        }
    }
    assert(entries@.take(0).len() == 0);
    None
}

} // verus!
