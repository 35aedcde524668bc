[package]
name = "composefs"
version = "0.3.0"
edition = "2021"
publish = false

[dependencies]
anyhow = "=1.0.104"
bytes = "=1.12.1"
hex = "=0.4.3"
indicatif = "=0.17.11"
reqwest = { version = "=0.12.28", default-features = false, features = ["http2"] }
rustix = { version = "=1.1.6", features = ["fs"] }
sha2 = "=0.11.1"
tokio = { version = "=1.54.1", features = ["rt", "macros"] }
zstd = "=0.13.4"
