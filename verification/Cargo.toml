[package]
name = "geometrid"
version = "0.1.0"
edition = "2021"
publish = false

[dependencies]
itertools = "*"
ethnum = "1"
glam = "*"
serde = { version = "1", features = ["derive"] }
strum = { version = "*", features = ["derive"] }

[dev-dependencies]
itertools = "*"
