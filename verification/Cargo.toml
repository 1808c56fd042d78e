[package]
name = "stembed"
version = "0.1.0"
edition = "2021"
publish = false

[dependencies]
arrayvec = { version = "0.7", default-features = false }
postcard = "1"
serde = { version = "1", default-features = false, features = ["derive"] }
