[package]
name = "nasr2sct"
version = "0.1.0"
edition = "2021"
publish = false

[dependencies]
quick-xml = "0.22"
regex = "1"
zip = { version = "0.5", default-features = false, features = ["deflate"] }
structopt = "0.3"
custom_error = "1"
roxmltree = "*"
