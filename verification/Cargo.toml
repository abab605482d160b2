[package]
name = "beast"
version = "0.1.0"
edition = "2021"
publish = false

[dependencies]
calamine = { version = "*", features = ["dates"] }
lazy_static = "*"
reqwest = { version = "*", default-features = false, features = ["cookies", "rustls-tls"] }
scraper = "*"
tokio = { version = "*", features = ["macros", "rt-multi-thread"] }
