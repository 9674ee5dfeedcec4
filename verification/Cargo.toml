[package]
name = "cloak-core"
version = "0.4.0"
edition = "2021"
publish = false

[dependencies]
image = { version = "0.25", default-features = false, features = ["png", "bmp", "jpeg", "webp", "gif", "tiff"] }
gif = "0.13"
argon2 = "0.5"
chacha20poly1305 = "0.10"
rand = "0.8"
rand_chacha = "0.3"
rayon = "1"
thiserror = "1"
anyhow = "1"
clap = { version = "4", features = ["derive"] }
glob = "0.3"
indicatif = "0.17"
rpassword = "7"
crossterm = "0.28"
ratatui = "0.29"
