[package]
name = "streamtune"
version = "0.1.0"
edition = "2021"
publish = false

[dependencies]
anyhow = "1"
bincode = "1"
clap = { version = "4", features = ["derive"] }
fundsp = "0.16"
libopusenc = "*"
rodio = "0.17"
serde = { version = "1", features = ["derive"] }
symphonia = "0.5"
thiserror = "1"
tracing = "0.1"
tracing-subscriber = { version = "0.3", features = ["env-filter"] }

[dev-dependencies]
prost = "0.12"
