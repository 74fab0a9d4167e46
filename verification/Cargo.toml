[package]
name = "red-leicester-string"
version = "0.1.0"
edition = "2021"
publish = false

[dependencies]
aho-corasick = "*"
base32 = "*"
base64 = "*"
encoding_rs = "*"
hex = "*"
memchr = "*"
clap = { version = "*", features = ["derive"] }
lru = "*"
memmap = "*"
rayon = "*"
serde_json = "*"
walkdir = "*"

[dev-dependencies]
rand = "*"
