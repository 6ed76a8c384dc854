[package]
name = "lsdj"
version = "0.1.0"
edition = "2021"
publish = false

[dependencies]
anyhow = "1"
clap = { version = "4", features = ["derive"] }
colored = "2"
humantime = "2"
mizu-core = "*"
serde = { version = "1", features = ["derive"] }
serde_json = "1"
sha2 = "0.10"
system-interface = "*"
thiserror = "1"
ux = "0.1"
walkdir = "2"
wav = "1"
wild = "2"
