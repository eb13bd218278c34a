[package]
name = "tracing-texray"
version = "0.2.0"
edition = "2021"
publish = false

[dependencies]
parking_lot = "0.12"
tracing = "0.1"
tracing-subscriber = "0.3"
