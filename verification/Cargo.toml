[package]
name = "typost"
version = "0.1.0"
edition = "2021"
publish = false

[dependencies]
aes-gcm = "=0.10.3"
pbkdf2 = { version = "=0.13.0", features = ["sha2"] }
getrandom = "=0.3.4"
base64 = "=0.22.1"
anyhow = "=1.0.104"
serde = { version = "=1.0.229", features = ["derive"] }
toml = "=0.8.23"
comemo = "=0.5.1"
typst = "=0.15.1"
typst-eval = "=0.15.1"
typst-kit = { version = "=0.15.1", default-features = false, features = ["datetime", "embedded-fonts"] }
typst-bundle = "=0.15.1"
