[package]
name = "qalam"
version = "0.1.0"
edition = "2021"
publish = false

[dependencies]
anyhow = "1"
blake3 = { version = "1", features = ["pure"] }
clap = { version = "4", features = ["derive"] }
ordered-float = "4"
serde = { version = "1", features = ["derive"] }
serde_json = "1"
smallvec = "1"
smol_str = "0.2"
thiserror = "1"
toml = "0.8"
unicode-normalization = "0.1"
