//! The means of travel for which a graph is made.

use crate::util::same_text;
use vstd::prelude::*;

verus! {

/// A means of travel.
#[derive(PartialEq, Eq, Hash, Debug, Clone, Copy, Structural)]
pub enum NetworkType {
    Pedestrian,
    Car,
    Bicycle,
}

/// The network type that a name stands for: the full word or its first letter.
pub open spec fn named_network_type(name: Seq<char>) -> Option<NetworkType> {
    if name == "pedestrian"@ || name == "p"@ {
        Some(NetworkType::Pedestrian)
    } else if name == "car"@ || name == "c"@ {
        Some(NetworkType::Car)
    } else if name == "bicycle"@ || name == "b"@ {
        Some(NetworkType::Bicycle)
    } else {
        None
    }
}

/// The network type that `network_type` names, if it names one.
pub fn find_network_type(network_type: &str) -> (found: Option<NetworkType>)
    ensures
        found == named_network_type(network_type@),
{
    if same_text(network_type, "pedestrian") || same_text(network_type, "p") {
        Some(NetworkType::Pedestrian)
    } else if same_text(network_type, "car") || same_text(network_type, "c") {
        Some(NetworkType::Car)
    } else if same_text(network_type, "bicycle") || same_text(network_type, "b") {
        Some(NetworkType::Bicycle)
    } else {
        None
    }
}

/// The network type that `network_type` names.
pub fn get_network_type(network_type: &str) -> (found: NetworkType)
    requires
        named_network_type(network_type@) is Some,
    ensures
        Some(found) == named_network_type(network_type@),
{
    match find_network_type(network_type) {
        Some(found) => found,
        None => NetworkType::Pedestrian,
    }
}

} // verus!
