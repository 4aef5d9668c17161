[package]
name = "pallet-projects"
version = "0.1.0"
edition = "2021"
publish = false

[dependencies]
sp-arithmetic = "*"
sp-runtime = "*"
frame-support = "*"
frame-system = "*"
parity-scale-codec = { version = "*", features = ["derive"] }
scale-info = { version = "*", features = ["derive"] }
serde = { version = "*", features = ["derive"] }
impl-trait-for-tuples = "*"
