[package]
name = "minotaur"
version = "0.1.0"
edition = "2021"
publish = false

[dependencies]
rand = "0.8"
rand_pcg = "0.3"
serde = { version = "1", features = ["derive"] }
bincode = "1"
image = { version = "0.24", default-features = false, features = ["png"] }
structopt = "0.3"
