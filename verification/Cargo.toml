[package]
name = "rts_server"
version = "0.1.0"
edition = "2021"
publish = false

[dependencies]
bit-vec = "0.6"
byteorder = "1"
fnv = "1"
serde = { version = "1", features = ["derive"] }
serde_json = "1"
ws = "0.9"
websocket = { version = "0.26", default-features = false, features = ["sync"] }
rand = "0.4"
time = "0.1"
