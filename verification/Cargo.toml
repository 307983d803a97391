[package]
name = "rtc_core"
version = "0.1.0"
edition = "2021"
publish = false

[dependencies]
base64 = "0.22"
brotli = "*"
uuid = { version = "1", features = ["v4"] }
tokio = { version = "1", features = ["sync", "rt-multi-thread", "macros", "time", "io-util"] }
bytes = "1"
