[package]
name = "anarchy_time_control"
version = "0.1.0"
edition = "2021"
publish = false

[dependencies]
anyhow = "*"
aviutl2 = "*"
aviutl2-eframe = "*"
tap = "*"
tracing = "*"
xxhash-rust = { version = "*", features = ["xxh32"] }
