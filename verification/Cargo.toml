[package]
name = "mini_db"
version = "0.1.0"
edition = "2021"
publish = false

[dependencies]
chrono = "*"
fs-err = "*"
parking_lot = "*"
thiserror = "*"
