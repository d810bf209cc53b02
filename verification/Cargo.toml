[package]
name = "object_tree"
version = "0.1.0"
edition = "2021"
publish = false

[dependencies]
blake3 = { version = "=1.8.7", default-features = false, features = ["pure"] }
chrono = { version = "0.4", default-features = false, features = ["now"] }
petgraph = "=0.6.5"
serde = { version = "=1.0.229", features = ["derive"] }
thiserror = "=1.0.69"
