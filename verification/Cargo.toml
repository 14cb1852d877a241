[package]
name = "clog"
version = "0.1.0"
edition = "2021"
publish = false

[dependencies]
brotli = "*"
brotli-decompressor = "*"
pco = "*"
regex = "*"
strsim = "*"
time = "*"
string-interner = "*"
indexmap = "*"
tokio = { version = "*", features = ["rt-multi-thread", "macros", "sync", "fs", "io-util", "time"] }
clap = { version = "*", features = ["derive"] }
serde = { version = "*", features = ["derive"] }
serde_json = "*"
anyhow = "*"

[dev-dependencies]
postcard = { version = "*", features = ["alloc"] }
