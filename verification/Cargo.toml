[package]
name = "geozero"
version = "0.1.0"
edition = "2021"
publish = false

[dependencies]
geo-types = "*"
sqlx = { version = "*", default-features = false, features = ["sqlite"] }
