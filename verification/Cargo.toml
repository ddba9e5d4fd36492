[package]
name = "cooklang"
version = "0.1.0"
edition = "2021"
publish = false

[dependencies]
relative-path = "1"
serde = { version = "1", features = ["derive"] }
thiserror = "2"
