[package]
name = "gridis"
version = "0.1.0"
edition = "2021"
publish = false

[dependencies]
display-info = { version = "0.5", default-features = false }
windows = { version = "=0.58.0", default-features = false, features = ["Win32_Foundation", "Win32_UI_WindowsAndMessaging"] }
windows-core = { version = "=0.58.0", default-features = false }
