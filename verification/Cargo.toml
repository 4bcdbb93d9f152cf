[package]
name = "strumyk"
version = "0.1.0"
edition = "2021"
publish = false

[dependencies]
bitvec = "=1.1.1"
bytes = "=1.12.1"
hex-string = "=0.1.0"
serde = { version = "1", features = ["derive"] }
serde_bencode = "=0.2.4"
serde_bytes = "0.11"
serde_derive = "1"
sha1 = "=0.11.0"
tokio = { version = "1", features = ["fs", "io-util", "macros", "net", "rt", "rt-multi-thread", "sync", "time"] }
