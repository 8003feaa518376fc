[package]
name = "browser"
version = "0.1.0"
edition = "2021"
publish = false

[dependencies]
url = "2"
serde = { version = "1", features = ["derive"] }
serde_json = "1"
ureq = { version = "2", default-features = false, features = ["native-tls"] }
native-tls = "0.2"
zip = { version = "2", default-features = false, features = ["deflate"] }
log = "0.4"
