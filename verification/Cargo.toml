[package]
name = "keymapctl"
version = "0.1.0"
edition = "2021"
publish = false

[dependencies]
anyhow = "*"
bstr = "*"
clap = { version = "*", features = ["derive"] }
tracing = "*"
tracing-subscriber = { version = "*", features = ["fmt", "env-filter"] }

[dev-dependencies]
toml = "*"
