[package]
name = "bytestack"
version = "0.1.0"
edition = "2021"
publish = false

[dependencies]
crc = "3"
rand = "0.8"
clap = { version = "4", features = ["derive"] }

[dev-dependencies]
bincode = "1"
serde_json = { version = "1", features = ["preserve_order"] }
