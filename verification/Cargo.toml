[package]
name = "tabplayer"
version = "0.1.0"
edition = "2021"
publish = false

[dependencies]
anyhow = "1"
thiserror = "2"
serde = { version = "1", features = ["derive"] }
serde_json = "1"
once_cell = "1"
parking_lot = "0.12"
itertools = "0.14"
rand = "0.9"
libloading = "0.8"
godot = "0.5"
