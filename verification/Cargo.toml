[package]
name = "gamemaster"
version = "0.1.0"
edition = "2021"
publish = false

[dependencies]
image = { version = "0.25", default-features = false, features = ["png"] }
fast_image_resize = { version = "5", default-features = false }
anyhow = "1"
crossterm = { version = "0.28", features = ["event-stream"] }
ratatui = "0.29"
tokio = { version = "1", features = ["macros", "rt-multi-thread", "process", "io-util", "time"] }
futures = "0.3"
rustix = { version = "0.38", features = ["termios", "stdio"] }
