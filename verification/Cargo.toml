[package]
name = "password_puzzle"
version = "0.1.0"
edition = "2021"
publish = false

[dependencies]
chrono = "0.4"
gloo-timers = "0.3"
rand = "0.8"
web-sys = { version = "0.3", features = ["HtmlInputElement"] }
yew = { version = "0.21", features = ["csr"] }
