[package]
name = "parallel_k"
version = "0.1.0"
edition = "2021"
publish = false

[dependencies]
itertools = "*"
polars = { version = "*", default-features = false, features = ["csv", "fmt"] }
rayon = "*"
serde = { version = "1", features = ["derive"] }
serde_json = "1"
