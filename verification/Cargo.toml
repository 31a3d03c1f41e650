[package]
name = "photos"
version = "0.1.0"
edition = "2021"
publish = false

[dependencies]
sea-orm = { version = "=1.1.20", default-features = false, features = ["macros", "with-chrono", "with-json", "sqlx-sqlite", "runtime-tokio-rustls"] }
sea-orm-migration = { version = "=1.1.20", default-features = false, features = ["sqlx-sqlite", "runtime-tokio-rustls"] }
chrono = { version = "=0.4.45", features = ["serde"] }
serde = { version = "=1.0.229", features = ["derive"] }
serde_json = "=1.0.154"
tokio = { version = "=1.54.1", features = ["rt", "rt-multi-thread", "time"] }
async-trait = "=0.1.92"
log = "=0.4.35"
uuid = { version = "=1.29.1", features = ["v4"] }
