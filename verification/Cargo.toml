[package]
name = "tok"
version = "0.1.0"
edition = "2021"
publish = false

[dependencies]
anstream = "*"
anstyle = "*"
anyhow = "*"
clap = { version = "4", features = ["derive", "env"] }
clap_complete = "4"
ignore = "*"
rayon = "*"
serde = { version = "1", features = ["derive"] }
serde_json = "1"
tiktoken-rs = "*"
