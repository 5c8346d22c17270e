[package]
name = "burp"
version = "0.3.0"
edition = "2021"
publish = false

[dependencies]
flate2 = "=1.1.10"
md5 = "=0.8.1"
log = "=0.4.34"
threadpool = "=1.8.1"
clap = { version = "=4.6.7", features = ["derive"] }
serde = "=1.0.229"
serde_derive = "=1.0.229"
serde_yaml = "=0.9.34"
chrono = "=0.4.45"
fern = "=0.7.1"
reqwest = { version = "=0.13.5", default-features = false, features = ["blocking", "json"] }
