[package]
name = "modified_time_fix"
version = "0.1.0"
edition = "2021"
publish = false

[dependencies]
clap = { version = "3.2", features = ["cargo"] }
filetime = "0.2"
libc = "0.2"
windows-sys = { version = "0.36", features = ["Win32_Foundation", "Win32_Security", "Win32_System_Threading"] }
