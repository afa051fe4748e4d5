[package]
name = "ennx"
version = "0.1.0"
edition = "2021"
publish = false

[dependencies]
rand = "0.9"
rand_distr = "0.5"
ndarray = "0.16"
serde = { version = "1", features = ["derive"] }
toml = "0.8"
thiserror = "2"
memmap2 = "0.9"
