[package]
name = "furucombo_arbitrage"
version = "0.1.0"
edition = "2021"
publish = false

[dependencies]
anyhow = "1"
chrono = "0.4"
env_logger = "*"
log = "0.4"
reqwest = { version = "*", default-features = false, features = ["json"] }
rust_decimal = "*"
serde = { version = "1", features = ["derive"] }
tokio = { version = "1", features = ["macros", "rt-multi-thread", "sync", "time"] }
