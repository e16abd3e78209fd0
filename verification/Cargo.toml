[package]
name = "brainfuck"
version = "0.1.0"
edition = "2021"
publish = false

[dependencies]
rustc-hash = "*"
clap = { version = "3", features = ["derive"] }

[dev-dependencies]
newline-converter = "*"
