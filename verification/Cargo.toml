[package]
name = "streamlab"
version = "0.1.0"
edition = "2021"
publish = false

[dependencies]
regex = "=1.13.1"
csv = "=1.4.0"
clap = "=2.34.0"
termion = "=1.5.6"
rustc_apfloat = "=0.2.3+llvm-462a31f5a5ab"
serde = { version = "*", features = ["derive"] }
serde_json = "*"
