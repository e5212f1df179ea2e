[package]
name = "async-tqsm"
version = "0.1.0"
edition = "2021"
publish = false

[dependencies]
libtqsm = "=0.6.1"
unicode-segmentation = "=1.13.3"
anyhow = "=1.0.104"
tokio = { version = "=1.54.1", features = ["fs", "io-std", "io-util", "macros", "rt-multi-thread"] }
futures = "=0.3.34"
async-stream = "=0.3.6"
clap = { version = "=4.6.7", features = ["derive"] }
thiserror = "=1.0.69"
