[package]
name = "metric_graph"
version = "0.1.0"
edition = "2021"
publish = false

[dependencies]
csv = "1"
petgraph = "0.6"
plotters = "0.3"
