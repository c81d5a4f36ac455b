[package]
name = "rust_tree"
version = "0.1.0"
edition = "2021"
publish = false

[dependencies]
glob = "0.3"
humansize = "2"
walkdir = "2"
clap = { version = "4", features = ["derive"] }
colored = "2"
comfy-table = "7"
indicatif = "0.17"
serde = { version = "1", features = ["derive"] }
serde_json = "1"
thiserror = "1"
atty = "0.2"
