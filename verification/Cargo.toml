[package]
name = "smtpbis"
version = "0.1.0"
edition = "2021"
publish = false

[dependencies]
rustyknife = "*"
bytes = "*"
tokio = { version = "*", features = ["net", "rt", "rt-multi-thread", "io-util", "sync", "signal", "macros", "time"] }
tokio-rustls = "*"
futures-util = "*"
async-trait = "*"
