[package]
name = "haucet"
version = "0.1.0"
edition = "2021"
publish = false

[dependencies]
anyhow = "1"
clap = { version = "4", features = ["derive"] }
crc32c = "0.6"
flate2 = "1"
fs2 = "0.4"
hex = "0.4"
image = { version = "0.25", default-features = false, features = ["bmp"] }
regex = "1"
serde = { version = "1", features = ["derive"] }
serde_json = "1"
sha2 = "0.10"
shlex = "1"
tempfile = "3"
x509-parser = "0.16"
xattr = "1"
zip = { version = "2", default-features = false, features = ["deflate"] }
