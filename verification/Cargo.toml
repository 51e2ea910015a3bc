[package]
name = "fastsocket"
version = "0.1.0"
edition = "2021"
publish = false

[dependencies]
aes-gcm = "*"
base64 = "*"
fastrand = "*"
hex = "*"
hmac = "*"
sha2 = "*"
tokio = { version = "*", features = ["rt", "net", "sync", "macros", "io-util", "time"] }
hyper = { version = "*", features = ["server", "http1"] }
hyper-util = { version = "*", features = ["tokio"] }
http-body-util = "*"
fastwebsockets = { version = "*", features = ["upgrade"] }
