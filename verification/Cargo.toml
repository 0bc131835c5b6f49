[package]
name = "qube"
version = "0.1.0"
edition = "2021"
publish = false

[dependencies]
rand = "0.8"
nix = { version = "0.29", features = ["fs", "hostname", "mount", "process", "sched", "signal", "user"] }
libc = "0.2"
reqwest = { version = "0.12", default-features = false, features = ["blocking"] }
