[package]
name = "async_lab"
version = "0.1.0"
edition = "2021"
publish = false

[dependencies]
anyhow = "1"
futures = "0.3"
mio = { version = "1", features = ["os-poll", "net"] }
