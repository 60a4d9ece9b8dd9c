[package]
name = "diffie"
version = "0.1.0"
edition = "2021"
publish = false

[dependencies]
bincode = "1"
blake3 = "1"
clap = { version = "4", features = ["derive"] }
crossterm = "0.28"
ctrlc = "3"
exacl = "0.12"
glob = "0.3"
inotify = "0.11"
jiff = "0.2"
libc = "0.2"
md-5 = "0.10"
memmap2 = "0.9"
nix = { version = "0.29", features = ["user"] }
notify = "8"
num_cpus = "1"
ratatui = "0.29"
rayon = "1"
sha2 = "0.10"
walkdir = "2"
xattr = "1"
xxhash-rust = { version = "0.8", features = ["xxh3"] }
zstd = "0.13"
