[package]
name = "yamaha_rcp_rs"
version = "0.1.0"
edition = "2021"
publish = false

[dependencies]
tokio = { version = "1", features = ["net", "sync", "time", "rt-multi-thread", "macros", "io-util"] }
futures = "0.3"
serde = { version = "1", features = ["derive"] }
thiserror = "1"
