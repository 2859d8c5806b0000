[package]
name = "mycelium"
version = "0.1.0"
edition = "2021"
publish = false

[dependencies]
sha2 = "=0.11.0"
hex = "=0.4.3"
did-key = "=0.2.1"
form_urlencoded = "=1.2.2"
