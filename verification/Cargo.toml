[package]
name = "bindep"
version = "0.1.0"
edition = "2021"
publish = false

[dependencies]
clap = { version = "*", features = ["derive"] }
goblin = "*"
libc = "*"
symbolic-common = "*"
symbolic-demangle = { version = "*", default-features = false, features = ["cpp", "msvc", "rust"] }
