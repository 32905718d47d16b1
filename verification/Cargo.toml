[package]
name = "at_twitter_stream"
version = "0.1.0"
edition = "2021"
publish = false

[dependencies]
rocksdb = { version = "*", default-features = false }
serde_json = "*"
clap = { version = "*", features = ["derive"] }
log = "*"
bzip2 = "*"
tar = "*"
zip = "*"

[dev-dependencies]
tempfile = "*"
