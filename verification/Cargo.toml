[package]
name = "brb_dt_tree"
version = "0.1.0"
edition = "2021"
publish = false

[dependencies]
brb = "=1.0.10"
crdt_tree = "=0.0.16"
serde = { version = "=1.0.229", features = ["derive"] }
thiserror = "=1.0.69"
