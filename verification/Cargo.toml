[package]
name = "rusty_chunkenc"
version = "0.1.0"
edition = "2021"
publish = false

[dependencies]
bitstream-io = "2.5"
crc32c = "0.6"
nom = "7.1"
smallvec = "2.0.0-alpha.7"
thiserror = "1.0"
xxhash-rust = { version = "0.8", features = ["xxh64"] }

[dev-dependencies]
rand = "0.8"
