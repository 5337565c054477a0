[package]
name = "hfs"
version = "0.1.0"
edition = "2021"
publish = false

[dependencies]
blake3 = "1"
fastcdc = "3"
zstd = "0.13"
rmp-serde = "1"
serde = { version = "1", features = ["derive"] }
hex = "0.4"
anyhow = "1"
clap = { version = "4", features = ["derive"] }
tokio = { version = "1", features = ["rt-multi-thread", "macros", "sync"] }
async-trait = "0.1"
toml = "0.8"
tracing = "0.1"
tracing-subscriber = { version = "0.3", features = ["env-filter"] }
aws-config = { version = "1", features = ["behavior-version-latest"] }
aws-sdk-s3 = "1"
