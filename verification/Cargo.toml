[package]
name = "shardnet"
version = "0.1.0"
edition = "2021"
publish = false

[dependencies]
aes-gcm = "0.10"
anyhow = "1"
base64 = "0.22"
bincode = "1"
bip39 = "2"
clap = { version = "4", features = ["derive"] }
governor = "0.6"
hkdf = "0.12"
libp2p = { version = "0.53", default-features = false, features = ["ed25519", "macros", "gossipsub", "kad", "rendezvous", "request-response", "cbor", "ping", "identify", "tokio"] }
rand = "0.8"
reed-solomon-erasure = "6"
serde = { version = "1", features = ["derive"] }
serde_json = "1"
sha2 = "0.10"
sharks = "0.5"
tokio = { version = "1", features = ["full"] }
tracing = "0.1"
tracing-subscriber = "0.3"

[dev-dependencies]
tempfile = "3"
