[package]
name = "kagi"
version = "0.1.0"
edition = "2021"
publish = false

[dependencies]
bincode = "=1.3.3"
byteorder = "=1.5.0"
clap = { version = "4", features = ["derive"] }
crc32fast = "=1.5.4"
fasthash = "=0.4.0"
fs2 = "=0.4.3"
futures = { version = "=0.3.34", features = ["thread-pool"] }
hdrhistogram = { version = "=7.6.0", features = ["sync"] }
indicatif = "0.17"
integer-encoding = "=2.1.3"
libc = "=0.2.191"
lockfree = "=0.5.1"
lru = "=0.7.8"
memmap = "=0.7.0"
serde = { version = "1", features = ["derive"] }
serde_json = "1"
tempfile = "3"
tracing = "0.1"
tracing-subscriber = "0.3"
