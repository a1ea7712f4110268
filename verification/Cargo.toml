[package]
name = "binlog"
version = "0.1.0"
edition = "2021"
publish = false

[dependencies]
byteorder = "1"
crossbeam-channel = "0.5"
r2d2 = "0.8"
r2d2_sqlite = { version = "*", features = ["bundled"] }
redis = { version = "0.21", features = ["streams"] }
rusqlite = { version = "*", features = ["bundled"] }
string_cache = "0.8"
zstd = "0.13"
