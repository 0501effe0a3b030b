[package]
name = "raftstore"
version = "0.1.0"
edition = "2021"
publish = false

[dependencies]
quick-protobuf = "0.8"
actix = "0.13"
actix-web = "4"
anyhow = "1"
async-raft = "*"
async-trait = "0.1"
bean_factory = "*"
log = "0.4"
mime = "0.3"
serde = { version = "1", features = ["derive"] }
serde_json = "1"
tokio = { version = "1", features = ["full"] }
