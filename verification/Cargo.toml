[package]
name = "slipstream"
version = "0.1.0"
edition = "2021"
publish = false

[dependencies]
openssl = "0.10"
tokio = { version = "1", features = ["rt", "net", "time", "sync", "io-util", "macros"] }
clap = { version = "4", features = ["derive"] }
socket2 = "0.5"
libc = "0.2"
