[package]
name = "visdom"
version = "0.1.0"
edition = "2021"
publish = false

[dependencies]
rphtml = "*"
regex = "1"
thiserror = "1"
