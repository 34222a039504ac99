[package]
name = "rarity"
version = "0.1.0"
edition = "2021"
publish = false

[dependencies]
anyhow = "1"
async-recursion = "1"
base64 = "0.22"
encoding_rs = "0.8"
feed-rs = "2"
once_cell = "1"
rand = "0.9"
reqwest = { version = "0.12", default-features = false, features = ["json", "rustls-tls"] }
rustls = { version = "0.23", default-features = false, features = ["ring", "std", "tls12", "logging"] }
serde = { version = "1", features = ["derive"] }
serde_dhall = "0.12"
serde_json = "1"
serde_yaml_bw = "*"
smallvec = "1"
tiktoken-rs = "*"
tokio = { version = "1", features = ["full"] }
tracing = "0.1"
tracing-subscriber = "0.3"
twilight-cache-inmemory = "0.16"
twilight-gateway = "0.16"
twilight-http = "0.16"
twilight-model = "0.16"
twilight-util = { version = "0.16", features = ["builder"] }

[dev-dependencies]
regex = "1"
