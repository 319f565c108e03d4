[package]
name = "hammer"
version = "0.1.0"
edition = "2021"
publish = false

[dependencies]
num = "*"
byteorder = "*"
fnv = "*"
rocksdb = { version = "*", default-features = false }
bincode = "1"
uuid = { version = "*", features = ["v4"] }
libc = "*"

[dev-dependencies]
rand = "0.8"
