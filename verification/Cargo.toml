[package]
name = "refsto"
version = "0.1.0"
edition = "2021"
publish = false

[dependencies]
dirs = "5"
eframe = { version = "0.22", default-features = false, features = ["glow", "default_fonts"] }
egui_extras = { version = "0.22", default-features = false, features = ["image"] }
futures = "0.3"
image = "0.24"
image_hasher = "1"
native-dialog = "0.6"
sqlx = { version = "0.7", default-features = false, features = ["runtime-tokio", "sqlite"] }
tokio = { version = "1", features = ["rt-multi-thread", "time", "fs"] }
tokio-stream = "0.1"
tokio-util = "0.7"
xxhash-rust = { version = "0.8", features = ["xxh3"] }
