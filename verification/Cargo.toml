[package]
name = "folio"
version = "0.1.0"
edition = "2021"
publish = false

[dependencies]
encoding_rs = "0.8"
serde_json = "1"
serde = { version = "1", features = ["derive"] }
base64 = "0.22"
image = { version = "0.25", default-features = false, features = ["png"] }
rusqlite = "*"
walkdir = "2"
rayon = "1"
dirs = "*"
thiserror = "*"
ffmpeg-next = "*"
