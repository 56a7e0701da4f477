[package]
name = "knora"
version = "0.1.0"
edition = "2021"
publish = false

[dependencies]
serde = { version = "1", features = ["derive"] }
serde_json = "1"
csv = "1"
calamine = "0.22"
zip = { version = "0.6", default-features = false, features = ["deflate"] }
pdf-extract = "*"
actix-web = { version = "4", default-features = false, features = ["macros"] }
actix-cors = "*"
actix-multipart = "0.6"
futures = "0.3"
reqwest = { version = "0.11", default-features = false, features = ["json", "rustls-tls"] }
env_logger = "*"
log = "0.4"
dotenv = "0.15"
anyhow = "1"
sha2 = "0.10"
hex = "0.4"
