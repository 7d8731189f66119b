[package]
name = "timers"
version = "0.1.0"
edition = "2021"
publish = false

[dependencies]
chrono = "=0.4.45"
rusqlite = { version = "=0.41.1", features = ["bundled"] }
parking_lot = "=0.12.5"
serde = { version = "=1.0.229", features = ["derive"] }
thiserror = "=2.0.21"
tauri = { version = "=2.12.5", default-features = false }
