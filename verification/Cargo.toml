[package]
name = "exzet"
version = "0.1.0"
edition = "2021"
publish = false

[dependencies]
anyhow = "1"
async-trait = "0.1"
blake3 = "1"
getrandom = "0.3"
ignore = "0.4"
nfsserve = "0.10"
rustix = { version = "1", features = ["fs", "process", "mount", "system"] }
serde = { version = "1", features = ["derive"] }
serde_json = "1"
tokio = { version = "1", features = ["full"] }
