[package]
name = "syntext"
version = "0.1.0"
edition = "2021"
publish = false

[dependencies]
roaring = "*"
xxhash-rust = { version = "0.8", features = ["xxh64"] }
uuid = { version = "1", features = ["v4"] }
regex = "1"
serde = { version = "1", features = ["derive"] }
serde_json = "1"
fs2 = "0.4"
ignore = "0.4"
rayon = "1"
log = "0.4"
arc-swap = "1"
libc = "0.2"
