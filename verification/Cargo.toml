[package]
name = "asset_relocator"
version = "0.1.0"
edition = "2021"
publish = false

[dependencies]
reqwest = { version = "=0.11.27", features = ["blocking"] }
serde_json = "=1.0.154"
tar = "=0.4.46"
xz2 = "=0.1.7"
zip = "=0.6.6"

[dev-dependencies]
regex = "=1.13.1"
