[package]
name = "paste_stack"
version = "0.1.0"
edition = "2021"
publish = false

[dependencies]
rusqlite = { version = "=0.40.2", features = ["bundled"] }
sha2 = "=0.11.0"
dirs = "=7.0.0"
unicode-segmentation = "=1.13.3"
