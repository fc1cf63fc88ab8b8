[package]
name = "pool_payout"
version = "0.1.0"
edition = "2021"
publish = false

[dependencies]
serde = { version = "*", features = ["derive"] }
serde_json = "*"
reqwest = { version = "*", default-features = false, features = ["json"] }
tokio = { version = "*", features = ["macros", "rt-multi-thread"] }
bitcoincore-zmq = { version = "*", features = ["async"] }
futures-util = "*"
log = "*"
