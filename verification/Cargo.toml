[package]
name = "loxcraft"
version = "0.1.0"
edition = "2021"
publish = false

[dependencies]
arrayvec = "0.7"
hashbrown = "0.12"
rustc-hash = "1"
codespan-reporting = "0.11"
termcolor = "1"
thiserror = "1"
anyhow = "1"
serde = { version = "1", features = ["derive"] }
serde_json = "1"
askama_escape = "0.10"
tokio = { version = "1", features = ["rt", "rt-multi-thread", "io-std", "macros"] }
tower-lsp = "0.17"
warp = "0.3"
http = "0.2"
rust-embed = "6"
webbrowser = "0.8"
wasm-bindgen = "0.2"
console_error_panic_hook = "0.1"
ansi-to-html = "0.1"
mimalloc = { version = "0.1", default-features = false }
