[package]
name = "dirty_delta"
version = "0.1.0"
edition = "2021"
publish = false

[dependencies]
libc = "0.2"
log = "0.4"
lz4_flex = "0.11"
serde = { version = "1.0", features = ["derive"] }
vm-memory = "0.16"
xxhash-rust = { version = "0.8", features = ["xxh3"] }
