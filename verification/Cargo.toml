[package]
name = "koboterm"
version = "0.1.0"
edition = "2021"
publish = false

[dependencies]
vt100 = "=0.15.2"
anyhow = "=1.0.104"
libc = "=0.2.191"
rand = "=0.10.3"
russh = "=0.65.0"
tokio = { version = "=1.54.1", features = ["rt", "sync", "macros", "time", "net"] }
fontdue = "=0.9.5"
