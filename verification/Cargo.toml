[package]
name = "aegis_fs"
version = "0.1.0"
edition = "2021"
publish = false

[dependencies]
aes-gcm = "*"
rand = "*"
sha2 = "*"
serde = { version = "*", features = ["derive"] }
toml = "*"
clap = { version = "*", features = ["derive"] }
fuser = "*"
tokio = { version = "*", features = ["full"] }
aws-config = "*"
aws-sdk-s3 = "*"
tracing = "*"
tracing-subscriber = { version = "*", features = ["env-filter"] }
libc = "*"
bytes = "*"
anyhow = "*"
