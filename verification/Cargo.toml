[package]
name = "mlc"
version = "0.1.0"
edition = "2021"
publish = false

[dependencies]
petgraph = "*"
bimap = "*"
csv = "*"
serde = { version = "*", features = ["derive"] }
log = "*"
color-eyre = "*"
