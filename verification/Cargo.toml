[package]
name = "team_assign"
version = "0.1.0"
edition = "2021"
publish = false

[dependencies]
anyhow = "=1.0.104"
csv = "=1.4.0"
itertools = "=0.10.5"
rand = "=0.8.8"
rand_chacha = "=0.3.1"
serde = { version = "=1.0.229", features = ["derive"] }
