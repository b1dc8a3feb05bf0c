[package]
name = "mailfind"
version = "0.1.0"
edition = "2021"
publish = false

[dependencies]
august = "=2.4.0"
bstr = "=1.13.1"
flate2 = "=1.1.10"
htmlescape = "=0.3.1"
mailparse = "=0.18.0"
mimalloc = "=0.1.52"
nc = "=0.9.8"
parking_lot = "=0.13.0"
rayon = "=1.12.0"
term_size = "=0.3.2"
tokio = { version = "1", features = ["rt-multi-thread", "fs"] }
