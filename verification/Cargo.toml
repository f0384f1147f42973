[package]
name = "whoisthere"
version = "0.1.0"
edition = "2021"
publish = false

[dependencies]
pnet = "*"
rouille = "*"
serde = { version = "*", features = ["derive"] }
serde_json = "*"
structopt = "*"
