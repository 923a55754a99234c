[package]
name = "isometric_stanford"
version = "0.1.0"
edition = "2021"
publish = false

[dependencies]
sha2 = "0.10"
image-webp = "0.2"
png = "0.17"
serde = { version = "1", features = ["derive"] }
serde_json = "1"
tiff = "0.9"
las = { version = "0.9", features = ["laz"] }
proj4rs = "0.1"
ureq = "3"
