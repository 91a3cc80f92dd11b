[package]
name = "bookfeed"
version = "0.1.0"
edition = "2021"
publish = false

[dependencies]
anyhow = "*"
bytes = "*"
crossbeam = "*"
fastwebsockets = { version = "*", features = ["upgrade"] }
http-body-util = "*"
hyper = { version = "*", features = ["full"] }
hyper-util = { version = "*", features = ["full"] }
parking_lot = "*"
rayon = "*"
reqwest = { version = "*", default-features = false, features = ["json", "rustls-tls"] }
rustls = "*"
rustls-pki-types = "*"
serde = { version = "*", features = ["derive"] }
serde_json = "*"
tokio = { version = "*", features = ["full"] }
tokio-rustls = "*"
webpki-roots = "*"
