[package]
name = "grouped_topo_sort"
version = "0.1.0"
edition = "2021"
publish = false

[dependencies]
petgraph = "=0.6.5"
permute = "=0.2.1"
itertools = "=0.10.5"
serde = { version = "=1.0.229", features = ["derive"] }
serde_json = { version = "=1.0.154", features = ["preserve_order"] }
arbitrary = { version = "=1.5.0", features = ["derive"] }
