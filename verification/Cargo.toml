[package]
name = "ebpf_lab"
version = "0.1.0"
edition = "2021"
publish = false

[dependencies]
petgraph = "0.8"
object = { version = "0.37", default-features = false, features = ["read", "std"] }
anyhow = "1"
clap = { version = "4", features = ["derive"] }
serde = { version = "1", features = ["derive"] }
serde_json = "1"
tracing = "0.1"
tracing-subscriber = { version = "0.3", features = ["env-filter"] }
