[package]
name = "osu-collection-creator"
version = "0.1.0"
edition = "2021"
publish = false

[dependencies]
chrono = "0.4"
md-5 = "0.10"
structopt = "0.3"
zip = { version = "0.6", default-features = false, features = ["deflate"] }
