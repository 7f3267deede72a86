[package]
name = "toml_edit"
version = "0.1.0"
edition = "2021"
publish = false

[dependencies]
chrono = "0.4"
linked-hash-map = "0.5"
vec1 = "1"
itertools = "*"
serde = { version = "1", features = ["derive"] }
indexmap = "*"
