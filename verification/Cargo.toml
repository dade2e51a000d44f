[package]
name = "lsh_lock"
version = "0.1.0"
edition = "2021"
publish = false

[dependencies]
rand = "0.8"
rand_chacha = "0.3"
simsimd = "*"
bincode = "1"
serde = { version = "1", features = ["derive"] }
serde_json = "1"
ndarray = "0.16"
rayon = "1"
indicatif = "0.17"
structopt = "0.3"
