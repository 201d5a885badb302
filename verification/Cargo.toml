[package]
name = "sembler"
version = "0.1.0"
edition = "2021"
publish = false

[dependencies]
clap = { version = "2", default-features = false }
rustc-serialize = "0.3"

[dev-dependencies]
nom = "1"
