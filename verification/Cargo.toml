[package]
name = "vnf_placement"
version = "0.1.0"
edition = "2021"
publish = false

[dependencies]
rand = "0.7"
rand_distr = "0.2"
rayon = "1"
num_cpus = "1"
serde = { version = "1", features = ["derive"] }
bincode = "1"
config = "0.10"
