[package]
name = "pax_americana"
version = "0.1.0"
edition = "2021"
publish = false

[dependencies]
serde = { version = "=1.0.229", features = ["derive"] }
serde_json = "=1.0.154"
ureq = "=2.12.1"
tiny_http = "=0.12.0"
parking_lot = "=0.12.5"
roxmltree = "=0.21.2"
ibapi = { version = "=5.5.0", default-features = false, features = ["sync"] }
lettre = { version = "0.11", default-features = false, features = ["builder", "smtp-transport", "rustls-tls"] }
