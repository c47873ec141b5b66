[package]
name = "seqsearch"
version = "0.1.0"
edition = "2021"
publish = false

[dependencies]
bincode = "1"
blake3 = "1"
clap = { version = "4", features = ["derive"] }
colored = "2"
crossbeam-channel = "0.5"
dirs = "5"
encoding_rs = "0.8"
rand = "0.9"
rand_chacha = "0.9"
rand_distr = "0.5"
rayon = "1"
serde = { version = "1", features = ["derive"] }
serde_json = "1"
tantivy = "*"
tempfile = "3"
thiserror = "2"
vortex-array = "*"
vortex-buffer = "*"
vortex-dtype = "*"
vortex-error = "*"
walkdir = "2"
