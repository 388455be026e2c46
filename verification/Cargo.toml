[package]
name = "learned_index"
version = "0.1.0"
edition = "2021"
publish = false

[dependencies]
num = "=0.4.3"
approx = "=0.5.1"
rug = "=1.30.0"
serde = { version = "=1.0.229", features = ["derive"] }
superslice = "=1.0.0"
