[package]
name = "str2table"
version = "0.1.0"
edition = "2021"
publish = false

[dependencies]
ibig = "*"
clap = { version = "*", features = ["derive"] }
