[package]
name = "facet-dev"
version = "0.1.0"
edition = "2021"
publish = false

[dependencies]
fs-err = "3"
log = { version = "0.4", features = ["std"] }
owo-colors = "4"
serde_json = "1"
