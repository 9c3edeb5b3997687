[package]
name = "scalarize"
version = "0.1.0"
edition = "2021"
publish = false

[dependencies]
itertools = "0.12"
luminal = "0.2"
petgraph = "0.6"
petgraph-graphml = "3"
tracing = "0.1"
