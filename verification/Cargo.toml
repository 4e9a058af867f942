[package]
name = "foldsync"
version = "0.1.0"
edition = "2021"
publish = false

[dependencies]
chrono = "0.4"
hex = "0.4"
sha2 = "0.10"
notify = "*"
walkdir = "2"
ftp = "3"
zip = { version = "*", default-features = false, features = ["deflate"] }
