[package]
name = "taski"
version = "0.1.0"
edition = "2021"
publish = false

[dependencies]
petgraph = "*"
tracing = "0.1"
num_cpus = "1"
generativity = "1"
futures = "0.3"
futures-timer = "3"
async-trait = "0.1"
thiserror = "*"
parking_lot = "*"
log = "0.4"
palette = "0.7"
plotters = "0.3"
layout-rs = "0.1"
rand = "0.9"
rand_chacha = "0.9"

[dev-dependencies]
