[package]
name = "edn_text"
version = "0.1.0"
edition = "2021"
publish = false

[dependencies]
itoa = "1"
num-bigint = "0.4"
ryu = "1"
ordered-float = "4"
rust_decimal = { version = "1", default-features = false, features = ["std"] }
