[package]
name = "nettle"
version = "0.1.0"
edition = "2021"
publish = false

[dependencies]
sha3 = "=0.10.9"
rand = "=0.8.8"
rand_chacha = "=0.3.1"
rsa = { version = "=0.9.10", features = ["serde"] }
serde = { version = "1", features = ["derive"] }
tokio = { version = "1", features = ["full"] }
axum = "0.6"
hyper = "0.14"
reqwest = { version = "0.11", features = ["json"] }
futures = "0.3"
async-trait = "0.1"
clap = { version = "4", features = ["derive"] }
thiserror = "1"
public-ip-addr = "*"
