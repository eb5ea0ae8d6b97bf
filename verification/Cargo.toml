[package]
name = "shiku_home"
version = "0.1.0"
edition = "2021"
publish = false

[dependencies]
rs-snowflake = "*"
serde = { version = "1", features = ["derive"] }
serde_json = "1"
walkdir = "2"
log = "0.4"
uuid = { version = "1", features = ["v4"] }
xml-rs = "*"
