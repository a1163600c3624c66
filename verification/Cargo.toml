[package]
name = "task_scheduler"
version = "0.1.0"
edition = "2021"
publish = false

[dependencies]
chrono = "=0.4.45"
rodio = "=0.17.3"
serde = { version = "=1.0.229", features = ["derive"] }
serde_yaml = "=0.9.34"
windows = { version = "=0.54.0", features = ["Win32_Foundation", "Win32_UI_Shell", "Win32_UI_WindowsAndMessaging"] }
winrt-notification = "=0.5.1"
