[package]
name = "puzzlegen"
version = "0.1.0"
edition = "2021"
publish = false

[dependencies]
rand = "0.8"
random_word = { version = "*", default-features = false, features = ["en"] }
