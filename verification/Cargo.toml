[package]
name = "parseable_staging"
version = "0.1.0"
edition = "2021"
publish = false

[dependencies]
anyhow = "=1.0.104"
arrow = { version = "*", default-features = false, features = ["ipc"] }
clap = { version = "=4.6.7", features = ["env"] }
lazy_static = "=1.5.1"
thiserror = "=1.0.69"
