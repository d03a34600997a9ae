[package]
name = "bluevein"
version = "0.1.0"
edition = "2021"
publish = false

[dependencies]
hex = "0.4"
fat32-raw = "*"
libc = "0.2"
nix = { version = "0.29", features = ["user"] }
tokio = { version = "1", features = ["rt-multi-thread", "time"] }
ctrlc = "3"
winreg = "*"
serde = { version = "1", features = ["derive"] }
serde_json = "1"
