[package]
name = "cppn_develop"
version = "0.1.0"
edition = "2021"
publish = false

[dependencies]
primal-bit = "=0.3.2"
asexp = "=0.3.2"
graph-io-gml = "=0.3.0"
petgraph = "=0.5.1"
