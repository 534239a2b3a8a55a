[package]
name = "chroma"
version = "0.1.0"
edition = "2021"
publish = false

[dependencies]
anyhow = "1"
bech32 = "0.11"
blake3 = { version = "1", features = ["pure"] }
clap = { version = "4", features = ["derive"] }
getrandom = "0.2"
hex = "0.4"
ripemd = "0.1"
rpassword = "7"
secp256k1 = { version = "0.27", features = ["rand-std"] }
sha2 = "0.10"
thiserror = "1"
tokio = { version = "1", features = ["full"] }
