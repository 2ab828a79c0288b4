[package]
name = "rifgen"
version = "0.1.0"
edition = "2021"
publish = false

[dependencies]
Inflector = "0.11"
syn = { version = "1.0", features = ["full"] }
quote = "1.0"
