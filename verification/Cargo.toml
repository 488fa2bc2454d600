[package]
name = "mako_rs"
version = "0.1.0"
edition = "2021"
publish = false

[dependencies]
cairo-rs = "0.20"
calloop = "0.13"
calloop-wayland-source = "0.3"
smithay-client-toolkit = { version = "0.19", default-features = false, features = ["calloop"] }
zbus = "4"
