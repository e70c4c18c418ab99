[package]
name = "aax-decrypter"
version = "0.1.0"
edition = "2021"
publish = false

[dependencies]
aes = "0.8"
anyhow = "1"
byteorder = "1"
cbc = { version = "0.1", features = ["alloc"] }
clap = { version = "4", features = ["derive"] }
hex = "0.4"
indicatif = "0.17"
mp3lame-encoder = "*"
sha1 = "0.10"
symphonia = { version = "0.5", features = ["aac", "isomp4"] }
tempfile = "3"
thiserror = "1"
