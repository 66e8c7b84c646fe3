[package]
name = "typst_cnd"
version = "0.1.0"
edition = "2021"
publish = false

[dependencies]
uuid = { version = "=1.29.0", features = ["v4"] }
serde = { version = "=1.0.229", features = ["derive"] }
serde_json = "=1.0.154"
sha2 = "=0.10.9"
hex = "=0.4.3"
ttf-parser = "=0.25.1"
time = { version = "=0.3.55", features = ["formatting"] }
rustc-hash = "=2.1.3"
ecow = "=0.2.6"
clap = { version = "=4.6.7", features = ["derive"] }
pathdiff = "=0.2.3"
wasm-bindgen = "*"
serde-wasm-bindgen = "*"
