[package]
name = "l2_order_book"
version = "0.1.0"
edition = "2021"
publish = false

[dependencies]
binread = "*"
chrono = { version = "*", default-features = false, features = ["std"] }
clap = { version = "*", features = ["derive"] }
num-traits = "*"
rust_decimal = "*"
