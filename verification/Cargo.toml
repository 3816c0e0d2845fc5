[package]
name = "tag_overlay"
version = "0.1.0"
edition = "2021"
publish = false

[dependencies]
anyhow = "=1.0.104"
apriltag = "=0.4.0"
apriltag-image = "=0.1.0"
arboard = "=3.7.0"
image = { version = "=0.24.9", default-features = false }
imageproc = "=0.23.1"
nokhwa = { version = "0.10", features = ["input-v4l"] }
rusttype = "=0.9.3"
show-image = { version = "0.13", features = ["image"] }
