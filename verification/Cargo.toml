[package]
name = "wavglitch"
version = "0.1.0"
edition = "2021"

[dependencies]
rand = "=0.8.8"
hound = "=3.5.1"
anyhow = "=1.0.104"
clap = { version = "=4.6.7", features = ["derive"] }
yansi = { version = "=1.0.1", features = ["detect-env", "detect-tty"] }
