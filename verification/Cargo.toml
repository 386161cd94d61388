[package]
name = "polza_models"
version = "0.1.0"
edition = "2021"
publish = false

[dependencies]
rust_decimal = { version = "1", features = ["serde"] }
time = { version = "0.3", features = ["serde", "formatting"] }
serde = { version = "1", features = ["derive"] }
serde_json = "1"
reqwest = { version = "0.12", default-features = false, features = ["json"] }
dioxus = "*"
dioxus-i18n = "*"
unic-langid = { version = "*", features = ["macros"] }
gloo-console = "*"
gloo-storage = "*"
gloo-timers = "*"
js-sys = "*"
web-sys = { version = "*", features = ["Window", "Navigator", "Clipboard"] }
