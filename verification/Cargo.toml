[package]
name = "tzip"
version = "0.1.0"
edition = "2021"
publish = false

[dependencies]
aes = "0.8"
anyhow = "1"
bzip2 = "0.6"
clap = { version = "4", features = ["derive"] }
crc32fast = "1"
crossbeam-channel = "0.5"
crossterm = "0.28"
ctr = "0.9"
flate2 = "1"
hmac = "0.12"
indicatif = "0.17"
jwalk = "0.8"
libc = "0.2"
libdeflater = "1"
memmap2 = "0.9"
num_cpus = "1"
parking_lot = "0.12"
pbkdf2 = "0.12"
rand = "0.8"
ratatui = "0.29"
rayon = "1"
rpassword = "7"
sevenz-rust = { version = "0.6", features = ["compress", "aes256"] }
sha1 = "0.10"
xz2 = "0.1"
zstd = "0.13"

[dev-dependencies]
zip = { version = "2", default-features = false, features = ["deflate", "bzip2", "lzma", "xz", "zstd", "aes-crypto"] }
