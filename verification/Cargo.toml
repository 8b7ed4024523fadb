[package]
name = "tpt_local_ai"
version = "0.1.0"
edition = "2021"
publish = false

[dependencies]
sha2 = "0.10"
serde = { version = "1", features = ["derive"] }
serde_json = "1"
memmap2 = "0.9"
dirs = "5"
unicode-normalization = "0.1"
tokio = { version = "1", features = ["fs", "io-util", "rt-multi-thread", "macros"] }
reqwest = { version = "0.12", default-features = false, features = ["stream", "json", "rustls-tls"] }
futures-util = "0.3"
