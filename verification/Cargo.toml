[package]
name = "xerj_autoindex"
version = "0.1.0"
edition = "2021"
publish = false

[dependencies]
regex = "*"
serde = { version = "*", features = ["derive"] }
serde_json = "*"
encoding_rs = "*"
lz4_flex = "*"
zstd = "*"
memchr = "*"
flate2 = "*"
zip = { version = "*", default-features = false, features = ["deflate"] }
walkdir = "*"
anyhow = "*"
xxhash-rust = { version = "*", features = ["xxh3"] }
libc = "*"
quick-xml = "*"
rayon = "*"
chrono = "*"
reqwest = { version = "*", default-features = false, features = ["blocking", "json"] }

[dev-dependencies]
tempfile = "*"
