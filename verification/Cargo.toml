[package]
name = "reactive_runtime"
version = "0.1.0"
edition = "2021"
publish = false

[dependencies]
slotmap = "1"
indexmap = "2"
rustc-hash = "1.1"
futures = "0.3"
