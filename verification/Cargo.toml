[package]
name = "jelper"
version = "0.1.0"
edition = "2021"
publish = false

[dependencies]
anyhow = "=1.0.104"
chrono = "=0.4.45"
clap = { version = "=4.6.7", features = ["derive"] }
comfy-table = { version = "=7.2.2", features = ["custom_styling"] }
console = "=0.15.11"
dialoguer = "=0.11.0"
dirs = "=5.0.1"
indicatif = "=0.17.11"
keyring = "=3.6.3"
open = "=5.4.5"
reqwest = { version = "=0.12.28", default-features = false, features = ["json", "rustls-tls"] }
rust_xlsxwriter = "=0.102.0"
serde = { version = "=1.0.229", features = ["derive"] }
serde_json = "=1.0.154"
tokio = { version = "=1.54.1", features = ["macros", "rt-multi-thread"] }
