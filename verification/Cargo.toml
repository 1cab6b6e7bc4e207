[package]
name = "peer_net"
version = "0.1.0"
edition = "2021"
publish = false

[dependencies]
anyhow = "=1.0.104"
async-trait = "=0.1.92"
bincode = "=1.3.3"
bitcoin = "=0.32.102"
bytes = "=1.12.1"
esplora-client = { version = "=0.11.0", default-features = false, features = ["async"] }
futures = "=0.3.34"
secp256k1 = "=0.29.1"
serde = { version = "=1.0.229", features = ["derive"] }
tokio = { version = "=1.54.1", features = ["net", "sync", "time", "rt", "macros"] }
tokio-rustls = "=0.26.6"
tokio-util = { version = "=0.7.20", features = ["codec"] }
tracing = "=0.1.44"
url = "=2.5.8"
