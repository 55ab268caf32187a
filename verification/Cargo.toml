[package]
name = "synthetic"
version = "0.1.0"
edition = "2021"
publish = false

[dependencies]
anyhow = "1"
geo = "*"
geojson = "0.22"
rand = "0.8"
rand_xorshift = "0.3"
serde = { version = "1", features = ["derive"] }
serde_json = "1"
