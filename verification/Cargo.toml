[package]
name = "ctf"
version = "0.1.0"
edition = "2021"
publish = false

[dependencies]
indexmap = "=1.9.3"
pancurses = "=0.16.1"
rand = "=0.7.3"
serde = { version = "=1.0.229", features = ["derive"] }
toml = "=0.5.11"
tokio = { version = "=0.2.25", features = ["tcp", "io-util", "rt-core", "macros"] }

[dev-dependencies]
indoc = "1"
nom = "5"
