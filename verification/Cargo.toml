[package]
name = "scrobble_recap"
version = "0.1.0"
edition = "2021"
publish = false

[dependencies]
chrono = "=0.4.45"
serde_json = "=1.0.151"
lastfm = "=0.10.0"
rspotify = { version = "=0.16.1", default-features = false, features = ["client-reqwest", "reqwest-rustls-tls"] }
reqwest = { version = "=0.11.27", default-features = false, features = ["rustls-tls"] }
tokio = { version = "=1.53.2", features = ["macros", "rt-multi-thread"] }
futures-util = "=0.3.34"
