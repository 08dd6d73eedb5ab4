[package]
name = "mnemonic_worker"
version = "0.1.0"
edition = "2021"
publish = false

[dependencies]
ocl = "*"
rayon = "*"
reqwest = { version = "*", default-features = false, features = ["blocking", "json"] }
serde = { version = "*", features = ["derive"] }
