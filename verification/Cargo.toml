[package]
name = "tag_flatten"
version = "0.1.0"
edition = "2021"
publish = false

[dependencies]
binggan = "0.14"
serde_json = "=1.0.154"
vrl = { version = "=0.23.0", default-features = false, features = ["compiler", "value", "stdlib"] }
