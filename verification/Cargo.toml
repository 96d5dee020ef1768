[package]
name = "n2o5"
version = "0.1.0"
edition = "2021"
publish = false

[dependencies]
indexmap = "2"
petgraph = "*"
twox-hash = "2"
blake3 = "1"
shlex = "1"
redb = "*"
rayon = "1"
clap = { version = "4", features = ["derive"] }
anyhow = "1"
thiserror = "*"
indicatif = "*"
serde = { version = "1", features = ["derive"] }
postcard = { version = "1", features = ["use-std"] }
bincode = "2"
