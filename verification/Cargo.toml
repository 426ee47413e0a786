[package]
name = "save_manager"
version = "0.1.0"
edition = "2021"
publish = false

[dependencies]
chrono = "0.4"
clap = { version = "4", features = ["derive"] }
anstyle = "1"
colored = "2"
copy_dir = "0.1"
dirs = "5"
serde = { version = "1", features = ["derive"] }
serde_json = "1"
