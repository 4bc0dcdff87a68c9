[package]
name = "docx_edit"
version = "0.1.0"
edition = "2021"
publish = false

[dependencies]
quick-xml = "0.31"
zip = { version = "0.6", default-features = false, features = ["deflate"] }
