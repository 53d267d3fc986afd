[package]
name = "pwetty_box"
version = "0.1.0"
edition = "2021"
publish = false

[dependencies]
roxmltree = "=0.21.2"
serde = { version = "=1.0.229", features = ["derive"] }
serde_json = "=1.0.154"
minijinja = { version = "=3.0.5", features = ["serde"] }
waybar-cffi = "=0.1.1"
pangocairo = "=0.18.0"
femtovg = "=0.28.0"
khronos-egl = { version = "=6.0.0", features = ["static"] }
glow = "=0.18.0"
resvg = "=0.49.0"
