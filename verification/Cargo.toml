[package]
name = "flowshop"
version = "0.1.0"
edition = "2021"
publish = false

[dependencies]
rand = "=0.8.8"
clap = { version = "=3.2.25", features = ["derive"] }
csv = "=1.4.0"
indicatif = "0.17"
itertools = "=0.10.5"
lexical-sort = "=0.3.1"
rayon = "=1.12.0"
serde = { version = "=1.0.229", features = ["derive"] }
serde_json = "=1.0.154"
