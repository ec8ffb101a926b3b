[package]
name = "yarte_text"
version = "0.1.0"
edition = "2021"
publish = false

[dependencies]
log = "0.4"
markup5ever = "0.10"
syn = { version = "1", features = ["full"] }
