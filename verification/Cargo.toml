[package]
name = "parsimon"
version = "0.1.0"
edition = "2021"
publish = false

[dependencies]
anyhow = "1"
clap = { version = "4", features = ["derive"] }
crossbeam-channel = "0.5"
ctrlc = "3"
itertools = "0.10"
num_cpus = "1"
petgraph = "0.6"
rand = "0.8"
rayon = "1"
rmp-serde = "1"
rustc-hash = "1.1"
serde = { version = "1", features = ["derive"] }
serde_json = "1"
thiserror = "1"
tokio = { version = "1", features = ["rt-multi-thread", "net", "io-util"] }
