[package]
name = "markov_str"
version = "0.1.0"
edition = "2021"
publish = false

[dependencies]
foldhash = "0.1"
hashbrown = "0.15"
lasso = "0.7"
rand = "0.8"
regex = "1"
smallvec = "1"
serde = { version = "1", features = ["derive"] }
serde_json = "1"
