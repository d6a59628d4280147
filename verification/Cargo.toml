[package]
name = "rustperms"
version = "0.1.0"
edition = "2021"
publish = false

[dependencies]
smallvec = "1"
regex = "1"
xxhash-rust = { version = "0.8", features = ["xxh3"] }
form_urlencoded = "1"
uuid = "1"
base64 = "0.22"
bincode = { version = "2", features = ["serde"] }
serde = { version = "1", features = ["derive"] }
tokio = { version = "1", features = ["sync", "rt"] }
anyhow = "1"
