[package]
name = "ekv"
version = "0.1.0"
edition = "2021"
publish = false

[dependencies]
embassy-sync = "0.6"
env_logger = "0.10"
heapless = "0.8"
libfuzzer-sys = "0.4"
tokio = { version = "1", features = ["rt"] }
