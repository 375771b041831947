[package]
name = "invrev"
version = "0.2.0"
edition = "2021"
publish = false

[dependencies]
calamine = "*"
ctrlc = "*"
path-clean = "*"
serde = { version = "*", features = ["derive"] }
serde_json = "*"
thiserror = "*"
