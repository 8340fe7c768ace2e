[package]
name = "arbutus"
version = "0.1.0"
edition = "2021"
publish = false

[dependencies]
xxhash-rust = { version = "0.8", features = ["xxh64"] }
uuid = { version = "1", features = ["v4"] }
colored = "2"
