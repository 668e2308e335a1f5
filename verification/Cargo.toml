[package]
name = "flodown"
version = "0.1.0"
edition = "2021"
publish = false

[dependencies]
url = "2.5.8"
html-escape = "0.2.15"
smallvec = "1.15.2"
serde_yml = "0.0.13"
serde-value = "0.7.0"
