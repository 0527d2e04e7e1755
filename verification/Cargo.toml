[package]
name = "ivf_clusterer"
version = "0.1.0"
edition = "2021"
publish = false

[dependencies]
parking_lot = "0.12"
rustc-hash = "2.1"
tantivy = "*"
