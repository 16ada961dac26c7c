[package]
name = "orderbook"
version = "0.1.0"
edition = "2021"
publish = false

[dependencies]
rbtree = "*"
uuid = { version = "*", features = ["v4"] }
rust_decimal = "*"
rust_decimal_macros = "*"
