[package]
name = "valence_protocol"
version = "0.1.0"
edition = "2021"
publish = false

[dependencies]
bytes = "=1.12.1"
miniz_oxide = "=0.8.9"
aes = "=0.8.4"
cfb8 = "=0.8.1"
uuid = "=1.29.1"
embedded-io = "=0.6.1"
serde = { version = "=1.0.229", features = ["derive"] }

[dev-dependencies]
rand = "=0.8.8"
bitfield-struct = "*"
