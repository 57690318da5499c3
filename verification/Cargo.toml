[package]
name = "notes"
version = "0.1.0"
edition = "2021"
publish = false

[dependencies]
serde = { version = "*", features = ["derive"] }
serde_json = "*"
web-sys = { version = "*", features = ["Window", "Storage"] }
yew = { version = "*", features = ["csr"] }
