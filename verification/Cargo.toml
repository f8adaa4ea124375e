[package]
name = "mslx"
version = "0.1.0"
edition = "2021"
publish = false

[dependencies]
anyhow = "1"
async-trait = "0.1"
chrono = "0.4"
console_error_panic_hook = "0.1"
futures = "0.3"
js-sys = "0.3"
pulldown-cmark = { version = "*", default-features = false, features = ["html"] }
reqwest = { version = "0.12", default-features = false, features = ["rustls-tls"] }
resvg = "0.45"
serde = { version = "1", features = ["derive"] }
serde_json = "1"
serde_yaml = "0.9"
thiserror = "1"
tokio = { version = "1", features = ["rt-multi-thread", "macros", "time"] }
wasm-bindgen = "0.2"
wasm-bindgen-futures = "0.4"
web-sys = { version = "0.3", features = ["Request", "Response", "Window"] }
zip = { version = "2", default-features = false, features = ["deflate"] }
