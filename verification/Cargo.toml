[package]
name = "riff"
version = "0.1.0"
edition = "2021"
publish = false

[dependencies]
sodiumoxide = "0.2"
primes = "0.3"
serde = { version = "1", features = ["derive"] }
serde_json = "1"
hyper = { version = "0.14", features = ["full"] }
tokio = { version = "1", features = ["full"] }
reqwest = { version = "0.11", default-features = false, features = ["json"] }
futures = "0.3"
futures-util = "0.3"
async-trait = "0.1"
tungstenite = "0.17"
periodic = "0.1"
