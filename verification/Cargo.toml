[package]
name = "rrmf"
version = "0.1.0"
edition = "2021"
publish = false

[dependencies]
anyhow = "1"
gimli = "*"
libc = "0.2"
nix = { version = "*", features = ["ptrace", "process", "signal"] }
object = "*"
rhai = { version = "1", features = ["sync"] }
rustc-demangle = "0.1"
serde = { version = "1", features = ["derive"] }
serde_json = "1"
