[package]
name = "litgate"
version = "0.1.0"
edition = "2021"
publish = false

[dependencies]
rand = "0.8"
serde = { version = "1", features = ["derive"] }
serde_json = "1"
reqwest = { version = "0.11", default-features = false }
futures = "0.3"
actix-web = "4"
actix-cors = "0.6"
actix-files = "0.6"
actix-web-httpauth = "0.8"
