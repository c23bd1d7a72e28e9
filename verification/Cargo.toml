[package]
name = "lofi"
version = "0.1.0"
edition = "2021"
publish = false

[dependencies]
chrono = "=0.4.45"
clap = { version = "=4.5.61", features = ["derive"] }
csv = "=1.4.0"
geo-types = "=0.7.20"
geojson = "=0.24.2"
log = "=0.4.34"
random_color = "=0.8.0"
serde = { version = "=1.0.229", features = ["derive"] }
serde_json = "=1.0.151"
uuid = "=1.27.0"
