[package]
name = "tool_stubs"
version = "0.1.0"
edition = "2021"
publish = false

[dependencies]
eyre = "0.6"
indexmap = "2"
serde = { version = "1", features = ["derive"] }
serde_json = "1"
sha2 = "0.10"
tempfile = "3"
toml = { version = "*", features = ["preserve_order"] }
usage-rs = "*"
