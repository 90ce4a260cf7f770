[package]
name = "random_graphs"
version = "0.1.0"
edition = "2021"
publish = false

[dependencies]
hashbrown = "0.15"
indexmap = "2"
ndarray = "0.16"
petgraph = "0.8"
rand = "0.9"
rand_distr = "0.5"
rand_pcg = "0.9"
