[package]
name = "hd2mm"
version = "0.1.0"
edition = "2021"
publish = false

[dependencies]
regex = "=1.13.1"
uuid = { version = "=1.29.0", features = ["serde"] }
serde = { version = "=1.0.229", features = ["derive"] }
serde_json = "=1.0.154"
tokio = { version = "=1.54.1", features = ["fs", "rt", "macros", "sync"] }
futures = "=0.3.34"
anyhow = "=1.0.104"
log = "=0.4.35"
zip = { version = "=9.2.2", default-features = false, features = ["deflate"] }
sevenz-rust2 = "=0.24.2"
unrar = "=0.5.8"
