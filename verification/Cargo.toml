[package]
name = "mwixnet"
version = "0.1.0"
edition = "2021"
publish = false

[dependencies]
blake2-rfc = "=0.2.18"
chacha20 = "=0.8.2"
clap = "=2.34.0"
futures = "=0.3.34"
grin_core = "=5.5.2"
grin_secp256k1zkp = { version = "=0.8.0", features = ["bullet-proof-sizing"] }
grin_store = "=5.5.2"
grin_util = "=5.5.2"
hmac = { version = "=0.12.1", features = ["std"] }
rpassword = "=4.0.5"
serde = { version = "=1.0.229", features = ["derive"] }
serde_json = "=1.0.154"
sha2 = "=0.10.9"
thiserror = "=1.0.69"
tokio = { version = "=1.54.1", features = ["full"] }

[dev-dependencies]
rand = "=0.7.3"
