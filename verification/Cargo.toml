[package]
name = "courier"
version = "0.1.0"
edition = "2021"
publish = false

[dependencies]
uuid = { version = "=1.27.0", features = ["v4"] }
serde = { version = "*", features = ["derive"] }
serde_json = "*"
tokio = { version = "*", features = ["sync", "rt", "time", "macros", "rt-multi-thread"] }
sqlx = { version = "*", default-features = false, features = ["runtime-tokio", "sqlite"] }
redis = { version = "*", default-features = false, features = ["tokio-comp", "streams"] }
actix = "*"
actix-web = { version = "*", features = ["macros"] }
actix-web-actors = "*"
futures = "*"
once_cell = "*"
