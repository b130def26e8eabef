[package]
name = "osm_road_graph"
version = "0.1.0"
edition = "2021"
publish = false

[dependencies]
osmpbfreader = "*"
yaml-rust = "0.4"
clap = { version = "2", features = ["yaml"] }
lazy_static = "1"
