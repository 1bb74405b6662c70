[package]
name = "gguf_core"
version = "0.1.0"
edition = "2021"
publish = false

[dependencies]
byteorder = "1"
half = "2"
safetensors = "*"
serde = { version = "1", features = ["derive"] }
serde_json = "1"
clap = { version = "4", features = ["derive"] }
env_logger = "*"
log = "0.4"
