[package]
name = "crossword"
version = "0.1.0"
edition = "2021"
publish = false

[dependencies]
rand = "0.8"
serde = { version = "1", features = ["derive"] }
bson = "2"
sycamore = "0.8"
web-sys = { version = "0.3", features = ["Window", "Document", "HtmlDocument"] }
console_error_panic_hook = "0.1"
