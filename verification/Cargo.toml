[package]
name = "wordtwist"
version = "0.1.0"
edition = "2021"
publish = false

[dependencies]
rand = "0.8"
anyhow = "1"
argon2 = "0.5"
axum = { version = "0.6", features = ["ws"] }
axum-extra = { version = "0.7", features = ["cookie-signed"] }
chrono = "0.4"
cookie = "0.17"
rusqlite = { version = "0.29", features = ["bundled"] }
serde = { version = "1", features = ["derive"] }
serde_json = "1"
tokio = { version = "1", features = ["rt-multi-thread", "macros", "time"] }
tower-http = { version = "0.4", features = ["fs"] }
uuid = { version = "1", features = ["v4"] }
