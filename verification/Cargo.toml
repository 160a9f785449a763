[package]
name = "markov_junior"
version = "0.1.0"
edition = "2021"
publish = false

[dependencies]
image = { version = "0.25", default-features = false, features = ["png"] }
quick-xml = "0.37"
serde_json = "1"
mlua = { version = "0.10", features = ["lua54", "vendored"] }
