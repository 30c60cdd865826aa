[package]
name = "glommio"
version = "0.1.0"
edition = "2021"
publish = false

[dependencies]
ahash = "0.8"
smallvec = "1"
libc = "0.2"
nix = { version = "0.27", features = ["socket", "poll", "net"] }
scoped-tls = "1"
futures-lite = "2"
