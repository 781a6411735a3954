[package]
name = "traktor_n_rekords"
version = "0.1.0"
edition = "2021"

[dependencies]
serde = { version = "1", features = ["derive"] }
serde-xml-rs = "*"
