[package]
name = "abacas"
version = "0.1.0"
edition = "2021"
publish = false

[dependencies]
rug = { version = "1", default-features = false, features = ["integer", "rational"] }
gmp-mpfr-sys = { version = "=1.5.3", default-features = false, features = ["use-system-libs"] }
itertools = "=0.15.0"
argh = "=0.1.19"
rustyline = { version = "=19.0.0", features = ["derive"] }
syntect = { version = "=5.3.0", default-features = false, features = ["default-syntaxes", "default-themes", "regex-fancy"] }
dark-light = "=3.0.0"
