[package]
name = "cdcsync"
version = "0.1.0"
edition = "2021"
publish = false

[dependencies]
fastcdc = "=3.2.1"
blake3 = "=1.8.7"
tempfile = "=3.27.0"
reqwest = { version = "=0.13.5", default-features = false, features = ["blocking"] }

[dev-dependencies]
rand = "=0.10.3"
