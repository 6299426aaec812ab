[package]
name = "iana_ports"
version = "0.1.0"
edition = "2021"
publish = false

[dependencies]
color-eyre = "0.6"
csv = "1"
phf_codegen = "0.11"
serde = { version = "1", features = ["derive"] }
