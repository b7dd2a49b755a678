[package]
name = "book_manager"
version = "0.1.0"
edition = "2021"
publish = false

[dependencies]
iced = { version = "0.12", default-features = false, features = ["tokio"] }
rfd = { version = "0.14", default-features = false, features = ["xdg-portal", "tokio"] }
tokio = { version = "1", features = ["fs", "rt"] }
walkdir = "2"
