[package]
name = "ironlung"
version = "0.1.0"
edition = "2021"
publish = false

[dependencies]
libc = "=0.2.191"
sc = "=0.2.7"
spin = { version = "=0.9.9", features = ["lock_api"] }
talc = { version = "=4.4.3", default-features = false, features = ["lock_api"] }
mimalloc = { version = "=0.1.52", default-features = false }
libseccomp = "=0.3.0"
