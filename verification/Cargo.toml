[package]
name = "simple_http"
version = "0.1.0"
edition = "2021"
publish = false

[dependencies]
bytes = "1"
hpack = "0.3"
rustls = "0.22"
rustls-pemfile = "2"
rustls-pki-types = "1"
