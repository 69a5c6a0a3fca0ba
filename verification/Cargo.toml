[package]
name = "ocr_prep"
version = "0.1.0"
edition = "2021"
publish = false

[dependencies]
anyhow = "*"
clap = { version = "*", features = ["derive"] }
dotenvy = "*"
image = { version = "*", default-features = false, features = ["png"] }
reqwest = { version = "*", default-features = false, features = ["blocking", "json", "multipart", "rustls-tls"] }
serde = { version = "*", features = ["derive"] }
serde_json = "*"
xcap = "*"
