[package]
name = "img_process_server"
version = "0.1.0"
edition = "2021"
publish = false

[dependencies]
anyhow = "1"
image = "0.24"
interprocess = "1"
mimalloc = "0.1"
once_cell = "1"
reqwest = { version = "0.11", default-features = false, features = ["blocking", "rustls-tls"] }
sysinfo = { version = "0.29", default-features = false }
