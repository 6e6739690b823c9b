[package]
name = "dedupy"
version = "0.1.0"
edition = "2021"
publish = false

[dependencies]
csv = "=1.4.0"
seahash = "=4.1.0"
eyre = "=0.6.14"
serde = { version = "=1.0.229", features = ["derive"] }
rust_xlsxwriter = { version = "=0.101.0", features = ["serde"] }
rfd = { version = "=0.17.2", default-features = false, features = ["xdg-portal"] }
tracing = "=0.1.44"
tracing-subscriber = { version = "=0.3.23", features = ["env-filter"] }
