[package]
name = "dict_lookup"
version = "0.1.0"
edition = "2021"
publish = false

[dependencies]
tokio = { version = "1", features = ["rt-multi-thread", "macros", "fs", "io-util"] }
reqwest = { version = "0.12", default-features = false, features = ["json", "stream"] }
futures = "0.3"
tempfile = "3"
serde = { version = "1", features = ["derive"] }
thiserror = "2"
rodio = { version = "0.19", default-features = false }
