[package]
name = "cim_contextgraph"
version = "0.1.0"
edition = "2021"
publish = false

[dependencies]
petgraph = "=0.7.1"
daggy = "=0.8.1"
uuid = { version = "=1.29.0", features = ["v4"] }
cid = "=0.11.3"
chrono = "=0.4.45"
serde = { version = "=1.0.229", features = ["derive"] }
serde_json = "=1.0.154"
thiserror = "=1.0.69"

[dev-dependencies]
multihash-codetable = { version = "=0.2.2", features = ["sha2"] }
