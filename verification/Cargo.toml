[package]
name = "access"
version = "0.1.0"
edition = "2021"
publish = false

[dependencies]
serde = "=1.0.229"

[dev-dependencies]
chumsky = "=0.11.2"
