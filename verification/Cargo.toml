[package]
name = "mpudp"
version = "0.1.0"
edition = "2021"
publish = false

[dependencies]
rand = "=0.8.8"
tokio = { version = "=1.53.2", features = ["net", "rt", "sync", "time"] }
udp-listener = "=0.1.2"
bytes = "=1.12.1"
