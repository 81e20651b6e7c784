[package]
name = "torrent_announce"
version = "0.1.0"
edition = "2021"
publish = false

[dependencies]
sha1 = "0.6"
percent-encoding = "2"
rand = "0.8"
