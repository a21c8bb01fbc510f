[package]
name = "rabex_cli"
version = "0.1.0"
edition = "2021"
publish = false

[dependencies]
anyhow = "1"
clap = { version = "4", features = ["derive"] }
clap_complete = { version = "4", features = ["unstable-dynamic"] }
rabex = "0.2"
rayon = "1"
serde = { version = "1", features = ["derive"] }
serde_json = "1"
steamlocate = "2"
unicode-width = "0.2"
