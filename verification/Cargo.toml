[package]
name = "squeeze"
version = "0.1.0"
edition = "2021"
publish = false

[dependencies]
actix-web = "4"
actix-files = "0.6"
actix-multipart = "0.7"
actix-cors = "0.7"
base64 = "0.22"
chrono = "0.4"
futures-util = "0.3"
image = "0.25"
serde = { version = "1", features = ["derive"] }
