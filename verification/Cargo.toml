[package]
name = "socket-nn"
version = "0.1.0"
edition = "2021"
publish = false

[dependencies]
candle-core = "=0.1.2"
half = "=2.4.1"
tokio = { version = "=1.54.1", features = ["full"] }
