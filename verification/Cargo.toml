[package]
name = "with-limits"
version = "0.1.0"
edition = "2021"
rust-version = "1.85"
publish = false

[dependencies]
anyhow = "1"
clap = { version = "4.5", features = ["derive"] }
libc = "0.2"
signal-hook = "0.3"
sysinfo = "0.33"
windows-sys = { version = "0.59", features = ["Win32_Foundation", "Win32_Security", "Win32_System_JobObjects", "Win32_System_Threading"] }
