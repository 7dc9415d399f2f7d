[package]
name = "matchmaking"
version = "0.1.0"
edition = "2021"
publish = false

[dependencies]
uuid = { version = "=1.29.0", features = ["v4", "serde"] }
chrono = { version = "=0.4.45", features = ["serde"] }
serde = { version = "=1.0.229", features = ["derive"] }
serde_json = "=1.0.154"
actix-web = { version = "=4.18.1", default-features = false, features = ["macros"] }
utoipa = "=4.2.3"
async-trait = "=0.1.92"
sea-orm-migration = { version = "=1.1.20", default-features = false }
sea-orm = { version = "=1.1.20", default-features = false, features = ["macros", "with-json", "with-uuid", "with-chrono", "postgres-array"] }
tokio = { version = "=1.54.1", features = ["macros", "rt-multi-thread", "time"] }
rand = "=0.8.8"
