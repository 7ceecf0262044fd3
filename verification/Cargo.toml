[package]
name = "raft-io"
version = "0.8.0"
edition = "2021"
publish = false

[dependencies]
error-forge = "*"
pack-io = "*"
wal-db = "*"

[dev-dependencies]
tempfile = "3"
