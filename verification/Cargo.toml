[package]
name = "containerless"
version = "0.1.0"
edition = "2021"
publish = false

[dependencies]
clap = { version = "4", features = ["derive"] }
clap_complete = "4"
config = "*"
docker_credential = "*"
flate2 = "1"
globset = "*"
hex = "*"
oci-client = "*"
schemars = "*"
serde = { version = "1", features = ["derive"] }
serde_json = "1"
sha2 = "*"
tar = "*"
tempfile = "3"
thiserror = "*"
tokio = { version = "1", features = ["rt-multi-thread", "macros"] }
tracing = "*"
tracing-subscriber = { version = "*", features = ["env-filter"] }
walkdir = "2"
zstd = "*"
