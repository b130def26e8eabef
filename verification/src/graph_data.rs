//! The payloads of the road graph: a position per node, street data per edge.

use crate::util::{decimal, decimal_text};
use vstd::prelude::*;
use vstd::string::StringExecFns;

verus! {

/// The position of a node, in units of 10⁻⁷ degrees.
#[derive(Debug, Copy, Clone, PartialEq, Eq, Structural)]
pub struct NodeData {
    pub lat: i32,
    pub lon: i32,
}

/// What is known of a street.
#[derive(Debug, Clone)]
pub struct EdgeData {
    /// The name of the street; empty where it has none.
    pub name: String,
    /// The value of the street's highway tag.
    pub street_type: String,
    pub max_speed: u8,
    pub bidirectional: bool,
}

/// One line of text that describes the payload of a node.
pub trait NodeDataDescription {
    fn description(&self) -> String;
}

/// The name of an edge, and one line of text that describes its payload.
pub trait EdgeDataDescription {
    /// The text that `description` gives.
    spec fn description_text(&self) -> Seq<char>;

    /// The name of the edge; empty unless the payload has one.
    fn name(&self) -> (name: String)
        default_ensures
            name@ == Seq::<char>::empty(),
    {
        String::new()
    }

    fn description(&self) -> (line: String)
        ensures
            line@ == self.description_text(),
    ;
}

impl EdgeDataDescription for EdgeData {
    /// The highway type, the speed and 1 for a bidirectional street or 0
    /// for a one-way street, with a blank between them.
    open spec fn description_text(&self) -> Seq<char> {
        self.street_type@ + seq![' '] + decimal_text(self.max_speed as nat) + seq![
            ' ',
            if self.bidirectional {
                '1'
            } else {
                '0'
            },
        ]
    }

    fn name(&self) -> (name: String)
        ensures
            name@ == self.name@,
    {
        self.name.clone()
    }

    fn description(&self) -> (line: String) {
        let mut line = self.street_type.clone();
        line.push(' ');
        let speed = decimal(self.max_speed as u32);
        line.append(speed.as_str());
        line.push(' ');
        line.push(
            if self.bidirectional {
                '1'
            } else {
                '0'
            },
        );
        assert(line@ =~= self.description_text());
        line
    }
}

impl EdgeData {
    /// A copy with the same contents.
    pub fn duplicate(&self) -> (copy: EdgeData)
        ensures
            copy == *self,
    {
        EdgeData {
            name: self.name.clone(),
            street_type: self.street_type.clone(),
            max_speed: self.max_speed,
            bidirectional: self.bidirectional,
        }
    }
}

} // verus!
