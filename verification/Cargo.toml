[package]
name = "drizzle"
version = "0.1.0"
edition = "2021"
publish = false

[dependencies]
itertools = "*"
libc = "0.2"
nix = { version = "0.26", default-features = false, features = ["uio"] }
sha1_smol = "1"
thiserror = "1"
