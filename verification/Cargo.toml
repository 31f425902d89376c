[package]
name = "seq_hash"
version = "0.1.0"
edition = "2021"
publish = false

[dependencies]
packed-seq = "*"

[dev-dependencies]
rand = "*"
