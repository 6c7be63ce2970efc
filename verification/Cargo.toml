[package]
name = "openom"
version = "0.1.0"
edition = "2021"
publish = false

[dependencies]
getrandom = "0.3"
js-sys = "0.3"
postcard = { version = "1", features = ["alloc"] }
prost = "0.14"
serde = { version = "1", features = ["derive"] }
serde_json = "1"
sha2 = "0.10"
thiserror = "2"
wasm-bindgen = "0.2"
