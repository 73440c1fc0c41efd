[package]
name = "atx_core"
version = "0.1.0"
edition = "2021"
publish = false

[dependencies]
hex = "=0.4.3"
image = { version = "=0.25.10", default-features = false, features = ["bmp", "gif", "jpeg", "png", "tiff", "webp"] }
imageproc = { version = "=0.27.0", default-features = false }
jpeg-encoder = "=0.7.1"
kamadak-exif = "=0.6.1"
ravif = { version = "=0.13.0", default-features = false }
resvg = { version = "=0.49.0", default-features = false, features = ["text"] }
schemars = "=1.2.3"
serde = { version = "=1.0.229", features = ["derive"] }
serde_json = "=1.0.154"
sha2 = "=0.10.9"
skrifa = "=0.49.0"
thiserror = "=2.0.21"
webp = { version = "=0.3.1", default-features = false }
