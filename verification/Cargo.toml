[package]
name = "panda"
version = "0.1.0"
edition = "2021"
publish = false

[dependencies]
anyhow = "1"
async-raft = "0.6"
async-trait = "0.1"
bincode = "1"
byteorder = "1"
bytes = "1"
clap = { version = "3", features = ["derive"] }
futures = "0.3"
memchr = "2"
parking_lot = "0.11"
postgres-protocol = "0.6"
rocksdb = { version = "0.17", default-features = false }
rustyline = "9"
serde = { version = "1", features = ["derive"] }
sqlparser = { version = "0.13", features = ["serde"] }
tarpc = { version = "0.27", features = ["full"] }
thiserror = "1"
tokio = { version = "1", features = ["full"] }
tokio-postgres = "0.7"
tokio-util = { version = "0.6", features = ["codec"] }
tracing = "0.1"
tracing-subscriber = "0.3"

[dev-dependencies]
shellwords = "1"
