[package]
name = "indicium"
version = "0.1.0"
edition = "2021"
publish = false

[dependencies]
strsim = "=0.11.1"
eddie = "=0.4.2"
serde = { version = "*", features = ["derive"] }
