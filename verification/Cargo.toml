[package]
name = "quotdd"
version = "0.1.0"
edition = "2021"
publish = false

[dependencies]
rand = "*"
eyre = "*"
tokio = { version = "1", features = ["rt", "net", "time", "io-util", "macros"] }
