[package]
name = "pbdems2"
version = "0.1.0"
edition = "2021"
publish = false

[dependencies]
snap = "1"
rustc-hash = "2"
thiserror = "2"
memmap2 = "0.9"
serde = { version = "1", features = ["derive"] }
serde_json = "1"
clap = { version = "4", features = ["derive"] }
