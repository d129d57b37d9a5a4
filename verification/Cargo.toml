[package]
name = "data_structures"
version = "0.1.0"
edition = "2021"

[dependencies]
criterion = { version = "0.5", default-features = false }
