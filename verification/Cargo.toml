[package]
name = "powdr"
version = "0.1.0"
edition = "2021"
publish = false

[dependencies]
p3-field = "=0.8.0"
p3-goldilocks = "=0.8.0"
ibig = "=0.3.6"
serde_json = "1"
