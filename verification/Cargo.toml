[package]
name = "sp1_recursion_collections"
version = "0.1.0"
edition = "2021"
publish = false

[dependencies]
p3-field = "=0.8.0"
p3-baby-bear = "=0.8.0"
serde = { version = "=1.0.229", features = ["derive"] }
bincode = "=1.3.3"
