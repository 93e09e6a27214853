[package]
name = "gitcore"
version = "0.1.0"
edition = "2021"
publish = false

[dependencies]
sha1 = "=0.11.0"
flate2 = "=1.1.10"
deflate = "=1.0.0"
crc = "=3.4.0"
byteorder = "=1.5.0"
hex = "=0.4.3"
bstr = "=1.13.1"
anyhow = "=1.0.104"
async-trait = "=0.1.92"
chrono = "=0.4.45"
clap = { version = "=4.6.7", features = ["derive"] }
colored = "=3.1.1"
tracing = "=0.1.44"
bytes = "=1.12.1"
tokio = { version = "=1.54.1", features = ["rt", "macros", "io-util", "fs", "net", "sync"] }
russh = "=0.60.3"
sea-orm = { version = "=2.0.4", default-features = false, features = ["macros", "with-chrono"] }
