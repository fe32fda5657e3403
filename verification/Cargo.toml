[package]
name = "staticweaver"
version = "0.1.0"
edition = "2021"
publish = false

[dependencies]
fnv = "*"
reqwest = { version = "*", default-features = false, features = ["blocking"] }
tempfile = "*"
thiserror = "*"
