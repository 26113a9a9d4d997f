[package]
name = "hourlybot_rs"
version = "0.1.0"
edition = "2021"
publish = false

[dependencies]
rand = "0.8"
sha2 = "0.10"
clap = { version = "4", features = ["derive"] }
tokio = { version = "1", features = ["macros", "rt-multi-thread", "time"] }
tokio-cron-scheduler = "0.10"
mastodon-async = { version = "1", features = ["toml"] }
