[package]
name = "mixlyzer"
version = "0.1.0"
edition = "2021"
publish = false

[dependencies]
anyhow = "1"
flate2 = "1"
percent-encoding = "2"
rustfft = "6"
serde = { version = "1", features = ["derive"] }
serde_json = "1"
symphonia = { version = "0.5", features = ["all"] }
thiserror = "1"
uuid = { version = "1", features = ["v4"] }
