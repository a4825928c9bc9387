[package]
name = "probing"
version = "0.1.0"
edition = "2021"
publish = false

[dependencies]
url = "=2.5.8"
clap = { version = "=4.6.7", features = ["derive", "env"] }
tokio = { version = "=1.54.1", features = ["rt-multi-thread", "macros", "net", "io-util", "time"] }
hyper = { version = "=1.12.0", features = ["client", "http1"] }
hyper-util = { version = "=0.1.21", features = ["tokio"] }
http-body-util = "=0.1.5"
libloading = "=0.8.9"
linux-taskstats = "=0.7.0"
inferno = { version = "*", default-features = false }
serde = { version = "1", features = ["derive"] }
serde_json = "1"
