[package]
name = "keyed_list"
version = "0.1.0"
edition = "2021"
publish = false

[dependencies]
log = "0.4"
wasm-logger = "*"
yew = { version = "0.21", features = ["csr"] }
