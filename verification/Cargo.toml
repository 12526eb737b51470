[package]
name = "dv2_dnt_fix"
version = "1.3.0"
edition = "2021"
publish = false

[dependencies]
anyhow = "=1.0.104"
chrono = "=0.4.45"
eframe = { version = "=0.29.1", default-features = false, features = ["glow"] }
flate2 = "=1.1.10"
rfd = { version = "0.15", default-features = false, features = ["xdg-portal", "tokio"] }
winreg = "=0.52.0"
zopfli = "=0.8.4"
