[package]
name = "orchidlang"
version = "0.1.0"
edition = "2021"
publish = false

[dependencies]
unicode-segmentation = "1"
ordered-float = "4"
clap = { version = "4", features = ["derive"] }
