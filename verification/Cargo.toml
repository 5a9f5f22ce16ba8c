[package]
name = "manga_bay"
version = "0.1.0"
edition = "2021"
publish = false

[dependencies]
anyhow = "=1.0.104"
axum = { version = "=0.8.9", default-features = false, features = ["http1", "json", "tokio"] }
base64 = "=0.22.1"
chrono = { version = "=0.4.45", default-features = false, features = ["now"] }
clap = { version = "=4.6.7", default-features = false, features = ["std", "derive", "help", "usage"] }
hex = "=0.4.3"
libp2p = { version = "=0.54.1", features = ["tokio", "tcp", "noise", "yamux", "dns", "relay", "dcutr", "gossipsub", "kad", "mdns", "identify", "request-response", "cbor", "macros"] }
serde = { version = "=1.0.229", features = ["derive"] }
serde_json = "=1.0.154"
sha2 = "=0.10.9"
sqlx = { version = "=0.8.6", default-features = false, features = ["runtime-tokio", "sqlite", "derive"] }
sysinfo = { version = "0.38", default-features = false, features = ["system", "disk"] }
tokio = { version = "=1.54.1", features = ["rt-multi-thread", "macros", "fs", "net", "sync", "time"] }
tracing = "=0.1.44"
tracing-subscriber = { version = "=0.3.23", default-features = false, features = ["std", "fmt", "env-filter"] }
uuid = { version = "=1.29.0", features = ["v4"] }
