[package]
name = "dice_venture"
version = "0.1.0"
edition = "2021"
publish = false

[dependencies]
twox-hash = "*"
noise = "*"
rand = "*"
rand_chacha = "*"
serde = { version = "*", features = ["derive"] }
clap = { version = "*", features = ["derive"] }
