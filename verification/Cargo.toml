[package]
name = "cardparty"
version = "0.1.0"
edition = "2021"
publish = false

[dependencies]
rand = "0.8"
serde = { version = "1", features = ["derive"] }
serde_json = "1"
ron = "0.6"
anyhow = "1"
futures = "0.3"
tokio = { version = "0.2", features = ["macros", "rt-threaded", "sync", "stream"] }
warp = "0.2"
yew = "0.17"
wasm-bindgen = "0.2"
web-sys = { version = "0.3", features = ["HtmlElement", "HtmlInputElement", "console"] }
