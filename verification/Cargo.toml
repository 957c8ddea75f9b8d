[package]
name = "mcp_filesystem"
version = "0.1.0"
edition = "2021"
publish = false

[dependencies]
anyhow = "1"
async-compression = { version = "0.4", features = ["tokio", "gzip", "zstd"] }
axum = "0.8"
axum-server = { version = "0.7", default-features = false, features = ["tls-rustls-no-provider"] }
base64-simd = "0.8"
blake3 = "1"
cap-std = "3"
clap = { version = "4", features = ["derive"] }
content_inspector = "0.2"
csv = "1"
flate2 = "1"
futures = "0.3"
globset = "0.4"
hex = "0.4"
infer = "0.19"
md-5 = "0.10"
memmap2 = "0.9"
regex = "1"
rustls = { version = "0.23", default-features = false, features = ["ring", "std", "logging", "tls12"] }
serde = { version = "1", features = ["derive"] }
serde_json = "1"
sha2 = "0.10"
subtle = "2"
tar = "0.4"
thiserror = "2"
tokio = { version = "1", features = ["full"] }
tracing = "0.1"
uuid = { version = "1", features = ["v4"] }
walkdir = "2"
zstd = "0.13"
