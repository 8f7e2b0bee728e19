[package]
name = "wiki_markup"
version = "0.1.0"
edition = "2021"
publish = false

[dependencies]
linkify = "*"
pulldown-cmark = { version = "*", default-features = false, features = ["html"] }
