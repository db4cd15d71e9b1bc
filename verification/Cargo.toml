[package]
name = "infotainer"
version = "0.1.0"
edition = "2021"
publish = false

[dependencies]
uuid = { version = "0.8", features = ["v4"] }
serde_cbor = "0.11"
serde = { version = "1", features = ["derive"] }
actix = "0.13"
actix-web = "4"
actix-web-actors = "4.3"
actix-rt = "2"
actix-files = "0.6"
log = "0.4"
env_logger = "0.10"
faccess = "0.2"
