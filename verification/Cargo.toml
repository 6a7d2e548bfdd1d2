[package]
name = "stackedfour"
version = "0.1.0"
edition = "2021"
publish = false

[dependencies]
async-trait = "0.1"
env_logger = "0.10"
futures = "0.3"
log = "0.4"
sea-orm = { version = "0.12", default-features = false, features = ["macros", "with-json", "sqlx-postgres", "runtime-tokio-rustls"] }
sea-orm-migration = { version = "0.12", default-features = false, features = ["sqlx-postgres", "runtime-tokio-rustls"] }
serde = { version = "1", features = ["derive"] }
serde_json = "1"
tokio = { version = "1", features = ["macros", "rt-multi-thread", "sync"] }
tokio-stream = "0.1"
uuid = { version = "1", features = ["v4"] }
warp = "0.3"
