[package]
name = "beebotos_launcher"
version = "0.1.0"
edition = "2021"
publish = false

[dependencies]
uuid = { version = "1", features = ["v4"] }
anyhow = "1"
open = "5"
native-windows-gui = "1"
