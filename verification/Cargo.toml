[package]
name = "tfhe_aes"
version = "0.1.0"
edition = "2021"
publish = false

[dependencies]
tfhe = { version = "*", features = ["boolean"] }
rayon = "1"
dashmap = "*"
hex = "0.4"
aes = "0.8"
clap = { version = "4", features = ["derive"] }
rand = "0.9"
strum = "*"
strum_macros = "*"
