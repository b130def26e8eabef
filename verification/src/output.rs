//! The text of the graph file: its name and the lines of its edges.

use crate::graph::{Graph, GraphEdgeDescription};
use crate::graph_data::{EdgeData, EdgeDataDescription};
use crate::network_type::NetworkType;
use vstd::prelude::*;
use vstd::string::StringExecFns;

verus! {

/// The letter that stands for a network type in the name of a graph file.
pub open spec fn type_letter(network_type: NetworkType) -> Seq<char> {
    match network_type {
        NetworkType::Pedestrian => "p"@,
        NetworkType::Car => "c"@,
        NetworkType::Bicycle => "b"@,
    }
}

/// The name of the graph file for an input file: the name of the input
/// with `.py`, the letter of the network type and `gr` behind it.
pub fn create_out_filename(in_filename: &str, network_type: &NetworkType) -> (name: String)
    ensures
        name@ == in_filename@ + ".py"@ + type_letter(*network_type) + "gr"@,
{
    let identifier = match network_type {
        NetworkType::Pedestrian => "p",
        NetworkType::Car => "c",
        NetworkType::Bicycle => "b",
    };
    let mut name = in_filename.to_owned();
    name.append(".py");
    name.append(identifier);
    name.append("gr");
    name
}

/// The lines of the graph file that describe the edges, in the order of the edges.
pub fn edge_lines<N, E: EdgeDataDescription>(g: &Graph<N, E>) -> (lines: Vec<String>)
    ensures
        lines.len() == g.edges.len(),
        forall|j: int| 0 <= j < lines.len() ==> (#[trigger] lines[j])@ == g.edges[j].description_text(),
{
    let mut lines: Vec<String> = Vec::new();
    let mut j: usize = 0;
    while j < g.edges.len()
        invariant
            j <= g.edges.len(),
            lines.len() == j,
            forall|h: int| 0 <= h < j ==> (#[trigger] lines[h])@ == g.edges[h].description_text(),
        decreases g.edges.len() - j,
    {
        lines.push(g.edges[j].description());
        j += 1;
    }
    lines
}

/// The lines of the file of street names: the name of each edge, in the order of the edges.
pub fn name_lines<N>(g: &Graph<N, EdgeData>) -> (lines: Vec<String>)
    ensures
        lines.len() == g.edges.len(),
        forall|j: int| 0 <= j < lines.len() ==> (#[trigger] lines[j])@ == g.edges[j].data.name@,
{
    let mut lines: Vec<String> = Vec::new();
    let mut j: usize = 0;
    while j < g.edges.len()
        invariant
            j <= g.edges.len(),
            lines.len() == j,
            forall|h: int| 0 <= h < j ==> (#[trigger] lines[h])@ == g.edges[h].data.name@,
        decreases g.edges.len() - j,
    {
        lines.push(g.edges[j].data.name());
        j += 1;
    }
    lines
}

} // verus!
