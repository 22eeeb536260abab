[package]
name = "p2p_file_system"
version = "0.1.0"
edition = "2021"
publish = false

[dependencies]
bincode = { version = "2", features = ["derive", "serde"] }
serde = { version = "1", features = ["derive"] }
rand = "0.8"
clap = { version = "4", features = ["derive"] }
colored = "2"
socket2 = "0.5"
