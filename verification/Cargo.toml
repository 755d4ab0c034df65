[package]
name = "steam2fs"
version = "0.1.0"
edition = "2021"
publish = false

[dependencies]
adler2 = "2"
aes = "0.8"
anyhow = "1"
cfb-mode = "0.8"
clap = { version = "4", features = ["derive", "env"] }
crc32fast = "1"
flate2 = "1"
fuser = { version = "*", default-features = false }
futures-util = "0.3"
hex = "0.4"
libc = "0.2"
lru = "*"
parking_lot = "0.12"
russh = "*"
russh-config = "*"
russh-sftp = "*"
sha2 = "0.10"
tokio = { version = "1", features = ["rt-multi-thread", "net", "time", "io-util"] }
tracing = "0.1"
tracing-subscriber = { version = "0.3", features = ["env-filter"] }
