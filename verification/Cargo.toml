[package]
name = "itemset_expander"
version = "0.1.0"
edition = "2021"
publish = false

[dependencies]
fnv = "1"
bit-vec = "*"
serde = { version = "1", features = ["derive"] }
serde_json = "1"
anyhow = "1"
structopt = "0.3"
