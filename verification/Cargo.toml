[package]
name = "noice"
version = "0.1.0"
edition = "2021"
publish = false

[dependencies]
chrono = "=0.4.45"
jwt = "0.16"
rocket = "=0.4.11"
rocket_contrib = { version = "=0.4.11", default-features = false, features = ["tera_templates", "serve", "diesel_sqlite_pool"] }
diesel = { version = "=1.4.8", features = ["sqlite", "chrono"] }
oauth2 = "=1.3.0"
restson = "=0.5.4"
dotenv = "=0.13.0"
dotenv_codegen = "=0.11.0"
separator = "=0.4.1"
serde = { version = "=1.0.229", features = ["derive"] }
serde_derive = "=1.0.229"
serde_json = "=1.0.154"
