[package]
name = "couscous_crawler"
version = "0.1.0"
edition = "2021"
publish = false

[dependencies]
regex = "*"
scraper = "*"
url = "*"
clap = { version = "*", features = ["derive"] }
reqwest = { version = "*", default-features = false, features = ["rustls-tls"] }
tokio = { version = "*", features = ["rt-multi-thread", "macros", "time", "fs", "io-util"] }
rusqlite = { version = "*", features = ["bundled"] }
rand = "*"
uuid = { version = "*", features = ["v4"] }
