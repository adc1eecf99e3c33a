[package]
name = "lsh_rs"
version = "0.1.0"
edition = "2021"
publish = false

[dependencies]
rusqlite = { version = "*", features = ["bundled", "backup"] }
rand = { version = "=0.8.5", features = ["small_rng"] }
statrs = "*"
rayon = "*"
ndarray = "*"
