[package]
name = "piquet"
version = "0.1.0"
edition = "2021"
publish = false

[dependencies]
rand = "0.6"
rand_core = "0.4"
rand_xorshift = "0.1"
serde = { version = "1", features = ["derive"] }
actix-web = "4"
