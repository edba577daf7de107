[package]
name = "appimage_install"
version = "0.1.0"
edition = "2021"
publish = false

[dependencies]
glob = "0.3"
gtk4 = "*"
relm4 = { version = "*", default-features = false }
