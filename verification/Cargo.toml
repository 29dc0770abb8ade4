[package]
name = "pair_discovery"
version = "0.1.0"
edition = "2021"
publish = false

[dependencies]
csv = "1"
dotenv = "0.15"
ethers = "2"
eyre = "0.6"
serde = { version = "1", features = ["derive"] }
tokio = { version = "1", features = ["macros", "rt-multi-thread"] }
tracing = "0.1"
