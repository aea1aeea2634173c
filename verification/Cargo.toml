[package]
name = "dupfinder"
version = "0.1.0"
edition = "2021"
publish = false

[dependencies]
crossbeam-channel = "0.5"
windows-sys = { version = "*", features = ["Win32_Foundation", "Win32_System_Console"] }
