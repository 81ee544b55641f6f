[package]
name = "quill"
version = "0.1.0"
edition = "2021"
publish = false

[dependencies]
alacritty_terminal = "0.26"
anyhow = "1"
async-trait = "0.1"
calloop = { version = "*", features = ["signals"] }
futures = "0.3"
getrandom = "*"
image = { version = "0.25", default-features = false, features = ["png"] }
libc = "0.2"
regex = "1"
serde = { version = "1", features = ["derive"] }
serde_json = "1"
tracing = "0.1"
tracing-subscriber = { version = "0.3", features = ["env-filter"] }
tungstenite = "*"
wayland-protocols = { version = "*", features = ["client", "unstable"] }
