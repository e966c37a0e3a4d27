[package]
name = "blog"
version = "0.1.0"
edition = "2021"
publish = false

[dependencies]
actix-web = { version = "4", default-features = false, features = ["macros"] }
ignore = "0.4"
serde = { version = "1", features = ["derive"] }
tera = { version = "1", default-features = false }

[dev-dependencies]
toml = "0.8"
