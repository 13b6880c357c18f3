[package]
name = "dayer"
version = "0.1.0"
edition = "2021"
publish = false

[dependencies]
tar = "0.4"
docopt = "1"
env_logger = "*"
mime = "0.3"
reqwest = { version = "0.12", default-features = false, features = ["blocking", "rustls-tls"] }
rustc-serialize = "0.3"
