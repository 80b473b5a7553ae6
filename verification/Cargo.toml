[package]
name = "minimal_pdf_converter"
version = "0.1.0"
edition = "2021"
publish = false

[dependencies]
flate2 = "1"
gif = "*"
image-webp = "0.2"
jpeg-decoder = "0.3"
jpeg-encoder = "*"
png = "0.17"
quick-xml = "*"
ring = "0.17"
serde = { version = "1", features = ["derive"] }
serde_json = "1"
svg2pdf = "*"
thiserror = "*"
tiff = "*"
uuid = { version = "1", features = ["v4"] }
zip = "*"
