[package]
name = "windirscope"
version = "0.1.0"
edition = "2021"
publish = false

[dependencies]
xxhash-rust = { version = "0.8", features = ["xxh3"] }
crossbeam-channel = "0.5"
walkdir = "2"
serde = { version = "1", features = ["derive"] }
libc = "0.2"
