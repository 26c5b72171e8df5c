[package]
name = "ygege"
version = "0.1.0"
edition = "2021"
publish = false

[dependencies]
sha1 = "=0.11.0"
scraper = "=0.27.0"
chrono = "=0.4.45"
hex = "=0.4.3"
base32 = "=0.5.1"
urlencoding = "=2.1.3"
tokio = { version = "=1.53.2", features = ["full"] }
futures = "=0.3.34"
serde = { version = "=1.0.229", features = ["derive"] }
serde_json = "=1.0.151"
log = "=0.4.34"
wreq = "=0.15.3"
wreq-util = "=0.1.0"
trust-dns-resolver = "=0.23.2"
