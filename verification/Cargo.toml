[package]
name = "input_relay"
version = "0.1.0"
edition = "2021"
publish = false

[dependencies]
async-trait = "0.1"
eyre = "0.6"
serialport = { version = "4", default-features = false }
thiserror = "2"
tokio = { version = "1", features = ["macros", "rt", "rt-multi-thread", "sync", "time"] }
tracing = "0.1"
