[package]
name = "pingboard"
version = "1.1.4"
edition = "2021"
publish = false

[dependencies]
encoding_rs = "0.8"
regex = "1"
serde = { version = "1", features = ["derive"] }
serde_json = "1"
calamine = "0.38"
winreg = "0.55"
windows = { version = "0.61", features = ["Win32_Foundation", "Win32_NetworkManagement_IpHelper"] }
