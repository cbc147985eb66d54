[package]
name = "imgmaker"
version = "0.1.0"
edition = "2021"
publish = false

[dependencies]
anyhow = "=1.0.104"
byteorder = "=1.5.0"
sha1 = "=0.10.7"
xz2 = { version = "=0.1.7", features = ["static"] }
