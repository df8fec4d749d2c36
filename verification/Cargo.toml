[package]
name = "flumeview_sql"
version = "0.1.0"
edition = "2021"
publish = false

[dependencies]
crypto_secretbox = "*"

[dev-dependencies]
ssb-legacy-msg-data = "*"
