[package]
name = "niri_input"
version = "0.1.0"
edition = "2021"
publish = false

[dependencies]
smithay = { version = "=0.7.0", default-features = false }
xkbcommon = "=0.9.0"

[dev-dependencies]
xkeysym = "=0.2.1"
