[package]
name = "eulogy"
version = "0.1.0"
edition = "2021"
publish = false

[dependencies]
async-channel = "2"
proc-macro2 = "1"
proc-macro-crate = "3"
quote = "1"
smol = "2"
syn = { version = "2", features = ["full"] }
tokio = { version = "1", features = ["rt", "rt-multi-thread", "time", "sync"] }
tracing = "0.1"
