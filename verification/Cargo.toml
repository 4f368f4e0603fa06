[package]
name = "srt_translator"
version = "0.1.0"
edition = "2021"
publish = false

[dependencies]
anyhow = "=1.0.104"
clap = { version = "=4.6.7", features = ["derive"] }
futures = "=0.3.34"
rust-translate = "=0.1.3"
tokio = { version = "=1.54.1", features = ["full"] }
