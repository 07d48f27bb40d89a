[package]
name = "c2pa_cbor"
version = "0.2.0"
edition = "2021"
publish = false

[dependencies]
serde = { version = "1.0", features = ["derive"] }
