[package]
name = "wasm4_tracker"
version = "0.1.0"
edition = "2021"
publish = false

[dependencies]
clap = { version = "4.4", features = ["derive"] }
serde = { version = "*", features = ["derive"] }
serde_yaml = "*"
thiserror = "*"
byteorder = "*"
