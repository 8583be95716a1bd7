[package]
name = "kvs"
version = "0.1.0"
edition = "2021"
publish = false

[dependencies]
clap = { version = "4", features = ["derive"] }
crossbeam-channel = "0.5"
log = "0.4"
num_cpus = "1"
rayon = "1"
serde = { version = "1", features = ["derive"] }
serde_json = "1"
sled = "0.34"
stderrlog = "0.6"
thiserror = "2"
