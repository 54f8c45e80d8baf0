[package]
name = "tile_mosaic"
version = "0.1.0"
edition = "2021"
publish = false

[dependencies]
image = { version = "=0.25.10", default-features = false, features = ["png"] }
awc = "=3.11.0"
# The runtime on which the program's `main` runs the HTTP client.
actix-rt = "=2.15.0"
actix-web-opentelemetry = { version = "=0.22.0", features = ["awc"] }
anyhow = "=1.0.104"
bytes = "=1.12.1"
futures = "=0.3.34"
log = "=0.4.34"
opentelemetry = "=0.29.1"
