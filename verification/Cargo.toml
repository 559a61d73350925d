[package]
name = "md_links"
version = "0.1.0"
edition = "2021"
publish = false

[dependencies]
reqwest = { version = "0.12", default-features = false, features = ["blocking", "rustls-tls"] }
rustc-serialize = "0.3"
structopt = "0.3"

[dev-dependencies]
regex = "1"
