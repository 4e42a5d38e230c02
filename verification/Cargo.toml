[package]
name = "oagen"
version = "0.1.0"
edition = "2021"
publish = false

[dependencies]
openapiv3 = "*"
serde_json = "*"
structopt = "*"
indexmap = "*"
