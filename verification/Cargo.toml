[package]
name = "country_distance"
version = "0.1.0"
edition = "2021"
publish = false

[dependencies]
geo = "*"
geojson = "*"
serde_json = "*"
anyhow = "*"
