[package]
name = "ibc_fee_scan"
version = "0.1.0"
edition = "2021"
publish = false

[dependencies]
anyhow = "*"
base64 = "=0.13.1"
clap = "=3.2.25"
dotenv = "*"
env_logger = "*"
log = "*"
prost = "=0.9.0"
serde = { version = "*", features = ["derive"] }
serde_json = "*"
terra-proto = "=0.5.16-beta.1"
terra-rust-api = "=1.2.20"
terra-rust-cli = "=1.0.13"
tokio = { version = "1", features = ["full"] }

[dev-dependencies]
prost-types = "=0.9.0"
