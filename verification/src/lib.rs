//! Conversion of raw map points and ways into a compact routing graph for
//! one means of travel.
//!
//! The feasibility filter ([`read_osm`]) keeps the ways that the means of
//! travel may use and the points they run through. The graph builder
//! ([`osm_convert`]) makes a node of each point and an edge of each way,
//! with a normalized speed. The component analysis ([`lcc`]) cuts the graph
//! down to its largest strongly connected component, so that every node of
//! the result can be reached from every other.
//!
//! The graph itself is an arena ([`graph`]): nodes and edges live in two
//! vectors and name each other by their positions.

pub mod config;
pub mod config_creator;
pub mod digraph;
pub mod graph;
pub mod graph_data;
pub mod lcc;
pub mod lookup;
pub mod network_type;
pub mod osm_convert;
pub mod osm_parse_config;
pub mod osm_parse_config_creator;
pub mod output;
pub mod read_osm;
pub mod scc;
pub mod util;
