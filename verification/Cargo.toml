[package]
name = "brunch"
version = "0.1.0"
edition = "2021"
publish = false

[dependencies]
freedesktop-desktop-entry = "=0.7.19"
nucleo-matcher = "=0.3.1"
iced = { version = "=0.14.0", default-features = false, features = ["tiny-skia", "image", "svg", "x11", "thread-pool"] }
ron = "=0.10.1"
serde = { version = "=1.0.229", features = ["derive"] }
serde_json = "=1.0.154"
xdg = "=3.0.0"
