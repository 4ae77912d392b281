[package]
name = "map_reduce"
version = "0.1.0"
edition = "2021"
publish = false

[dependencies]
hash32 = "*"
serde = { version = "*", features = ["derive"] }
serde_json = "*"
clap = { version = "*", features = ["derive"] }
libloading = "*"
chrono = "*"
parking_lot = "*"
tokio = { version = "*", features = ["rt-multi-thread", "macros", "net", "time", "io-util", "sync"] }
