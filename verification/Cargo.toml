[package]
name = "gmaps_optimal_placement"
version = "0.1.0"
edition = "2021"
publish = false

[dependencies]
regex = "1"
base64 = "0.22"
sha2 = "0.10"
serde = { version = "1", features = ["derive"] }
serde_json = "1"
eyre = "0.6"
clap = { version = "4", features = ["derive"] }
csv = "1"
zip = { version = "2", default-features = false, features = ["deflate"] }
ureq = "3"
flate2 = "1"
proj4rs = "0.1"
evalexpr = "12"
indexmap = "2"
