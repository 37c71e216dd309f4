[package]
name = "gcstool"
version = "0.1.0"
edition = "2021"
publish = false

[dependencies]
byteorder = "*"
rayon = "*"
memchr = "*"
md-5 = "*"
sha1 = "*"
sha2 = "*"
blake2 = "*"
clap = "*"
linereader = "*"
