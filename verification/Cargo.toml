[package]
name = "flypro"
version = "0.1.0"
edition = "2021"
publish = false

[dependencies]
anyhow = "1"
chrono = "0.4"
clap = { version = "4", features = ["derive"] }
crc32fast = "1"
encoding_rs = "0.8"
nusb = "0.2"
serde = { version = "1", features = ["derive"] }
thiserror = "2"
