[package]
name = "rebacdb"
version = "0.1.0"
edition = "2021"
publish = false

[dependencies]
tokio = { version = "1", features = ["full"] }
tonic = { version = "0.12" }
jsonwebtoken = { version = "9" }
serde = { version = "1", features = ["derive"] }
serde_cbor = { version = "0.11" }
log = { version = "0.4" }
env_logger = { version = "0.11" }
dotenvy = { version = "0.15" }
reqwest = { version = "0.12", default-features = false, features = ["json"] }
kafka = { version = "0.10", default-features = false }
