[package]
name = "geng_db"
version = "0.1.0"
edition = "2021"
publish = false

[dependencies]
sha2 = "0.10"
serde = { version = "1", features = ["derive"] }
serde_json = "1"
argon2 = "0.5"
rand = "0.8"
image = { version = "0.24", default-features = false, features = ["jpeg", "png", "tiff", "bmp", "gif", "webp", "tga"] }
