[package]
name = "htlc_propagation"
version = "0.1.0"
edition = "2021"
publish = false

[dependencies]
csv = "1"
lightning-invoice = "*"
serde = { version = "1", features = ["derive"] }
