[package]
name = "xcraft"
version = "0.1.0"
edition = "2021"
publish = false

[dependencies]
anyhow = "1"
clap = { version = "4", features = ["derive"] }
md5 = "*"
plist = "1"
serde = { version = "1", features = ["derive"] }
serde_json = "1"
shlex = "1"
tempfile = "3"
toml = "*"
url = "2"
