[package]
name = "build_tools"
version = "0.1.0"
edition = "2021"
publish = false

[dependencies]
anyhow = "1"
clap = { version = "4", features = ["derive"] }
itertools = "0.14"
protobuf = "3"
regex = "1"
serde = { version = "1", features = ["derive"] }
serde_json = "1"
serde-xml-rs = "0.8"
siphasher = "1"
tempfile = "3"
tinytemplate = "1"
