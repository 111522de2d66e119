[package]
name = "duw"
version = "0.1.0"
edition = "2021"
publish = false

[dependencies]
axum = "=0.8.9"
blake3 = "=1.8.7"
clap = { version = "=4.6.7", features = ["derive"] }
dunce = "=1.0.5"
globset = "=0.4.21"
opener = "=0.9.0"
rayon = "=1.12.0"
rust-embed = { version = "=8.13.0", features = ["interpolate-folder-path", "mime-guess"] }
serde = { version = "=1.0.229", features = ["derive"] }
serde_json = "=1.0.154"
tokio = { version = "=1.54.1", features = ["rt-multi-thread", "macros", "signal", "net", "sync", "time"] }
tokio-stream = { version = "=0.1.19", features = ["time"] }
trash = "=5.2.9"
windows-sys = { version = "0.59", features = ["Win32_Foundation", "Win32_Storage_FileSystem"] }
