[package]
name = "parser_chunker"
version = "0.1.0"
edition = "2021"
publish = false

[dependencies]
bpe-openai = "=0.3.2"
serde = { version = "=1.0.229", features = ["derive"] }
serde_json = "=1.0.154"
toml = "=1.1.8"
clap = { version = "=4.6.7", features = ["derive"] }
clap_complete = "=4.6.11"
csv = "=1.4.0"
encoding_rs = "=0.8.44"
quick-xml = "=0.36.2"
zip = { version = "=9.2.2", default-features = false, features = ["deflate"] }
scraper = "=0.29.0"
mail-parser = "=0.11.9"
calamine = "=0.38.0"
cfb = "=0.16.0"
memmap2 = "=0.9.12"
rayon = "=1.12.0"
tracing = "=0.1.44"
tracing-subscriber = { version = "=0.3.23", features = ["env-filter"] }
thiserror = "=2.0.21"
pdf-extract = "=0.12.1"
arrow = { version = "=60.1.0", default-features = false }
parquet = { version = "=60.1.0", default-features = false, features = ["arrow", "snap"] }
pdfium-render = "=0.8.37"
image = { version = "=0.25.10", default-features = false, features = ["png", "jpeg", "gif", "bmp", "tiff", "webp"] }
ort = { version = "=2.0.0-rc.15", default-features = false }
