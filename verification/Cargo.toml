[package]
name = "user_service"
version = "0.1.0"
edition = "2021"
publish = false

[dependencies]
actix-web = { version = "=4.15.0", default-features = false, features = ["macros"] }
serde = { version = "=1.0.229", features = ["derive"] }
utoipa = "=3.5.0"
utoipa-swagger-ui = { version = "=3.1.5", features = ["actix-web"] }
