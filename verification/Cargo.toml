[package]
name = "djdb"
version = "0.1.0"
edition = "2021"
publish = false

[dependencies]
chrono = "=0.4.45"
chrono-tz = "=0.10.4"
deunicode = "=1.6.2"
toml = "=1.1.8"
serde = { version = "=1.0.229", features = ["derive"] }
calamine = { version = "=0.38.0", features = ["dates"] }
anyhow = "=1.0.104"
clap = { version = "=4.6.7", features = ["derive"] }
maud = "=0.27.0"
