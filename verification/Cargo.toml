[package]
name = "robo_croissant"
version = "0.1.0"
edition = "2021"
publish = false

[dependencies]
capitalize = "*"
chrono = "0.4"
diesel = { version = "2", features = ["sqlite", "serde_json"] }
futures = "0.3"
json_dotpath = "1"
log = "0.4"
percent-encoding = "2"
regex = "1"
reqwest = { version = "0.12", default-features = false, features = ["rustls-tls"] }
rocket = { version = "0.5", features = ["json"] }
rocket_dyn_templates = { version = "0.2", features = ["tera"] }
rocket_sync_db_pools = { version = "0.1", features = ["diesel_sqlite_pool"] }
serde = { version = "1", features = ["derive"] }
serde_json = "1"
