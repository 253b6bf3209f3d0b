[package]
name = "apple_plist"
version = "0.1.0"
edition = "2021"
publish = false

[dependencies]
base64 = "0.22"
crc32fast = "1"
indexmap = "2"
quick-xml = "0.38"
serde = { version = "1", features = ["derive"] }
thiserror = "2"
time = "0.3"
