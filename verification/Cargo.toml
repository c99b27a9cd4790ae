[package]
name = "qr_gen"
version = "0.1.0"
edition = "2021"
publish = false

[dependencies]
qrcode = "0.14"
image = { version = "0.25", default-features = false, features = ["png"] }
csv = "1"
clap = { version = "4", features = ["derive"] }
anyhow = "1"

[dev-dependencies]
rqrr = "*"
