[package]
name = "procman"
version = "0.1.0"
edition = "2021"
publish = false

[dependencies]
image = { version = "0.25", default-features = false, features = ["png"] }
sysinfo = { version = "0.33", default-features = false, features = ["system"] }
