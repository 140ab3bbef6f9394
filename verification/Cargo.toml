[package]
name = "dvrpc-node"
version = "0.1.0"
edition = "2021"
publish = false

[dependencies]
sha3 = "=0.10.9"
hex = "=0.4.3"
serde = { version = "=1.0.229", features = ["derive"] }
serde_json = "=1.0.154"
alloy-primitives = { version = "=1.7.3", features = ["serde", "rlp"] }
eyre = "=0.6.14"
clap = { version = "=4.6.7", features = ["derive"] }
tokio = { version = "=1.54.1", features = ["full"] }
axum = "=0.8.9"
tower-http = { version = "=0.7.1", features = ["cors"] }
reqwest = { version = "=0.13.5", default-features = false, features = ["json"] }
toml = "=1.1.8"
tracing = "=0.1.44"
tracing-subscriber = { version = "=0.3.23", features = ["env-filter"] }
helios-ethereum = "*"

[dev-dependencies]
alloy-rlp = "=0.3.16"
