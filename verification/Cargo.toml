[package]
name = "speed_daemon"
version = "0.1.0"
edition = "2021"
publish = false

[dependencies]
tokio = { version = "*", features = ["rt-multi-thread", "net", "sync", "time", "macros", "io-util"] }
tokio-util = { version = "*", features = ["codec"] }
tokio-stream = "*"
futures = "*"
clap = { version = "*", features = ["derive"] }
bytes = "*"
