[package]
name = "sbom_generator"
version = "0.1.0"
edition = "2021"
publish = false

[dependencies]
anyhow = "1"
bstr = "1"
chrono = "0.4"
getopts = "0.2"
log = "0.4"
packageurl = "*"
regex = "1"
serde = { version = "1", features = ["derive"] }
serde-cyclonedx = "*"
serde_json = "1"
toml = "0.8"
tracing = "0.1"
