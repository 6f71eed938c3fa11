[package]
name = "rnet"
version = "0.1.0"
edition = "2021"
publish = false

[dependencies]
unsigned-varint = "0.8"
rand = "*"
rsa = { version = "0.9", features = ["sha2", "getrandom"] }
sha2 = "0.10"
base58 = "0.2"
hex = "0.4"
bincode = "1.3"
serde = { version = "1", features = ["derive"] }
tokio = { version = "1", features = ["full"] }
async-trait = "0.1"
anyhow = "1"
tracing = "0.1"
