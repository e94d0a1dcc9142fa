[package]
name = "arkana"
version = "0.1.0"
edition = "2021"
publish = false

[dependencies]
sha2 = "=0.10.9"
data-encoding = "=2.11.1"
image = { version = "=0.25.10", default-features = false, features = ["png", "jpeg"] }
qrcode = "=0.14.1"
rxing = { version = "=0.8.3", default-features = false, features = ["image"] }
tar = "=0.4.46"
bstr = "=1.13.1"
thiserror = "=2.0.21"
anyhow = "=1.0.104"
clap = { version = "=4.6.7", features = ["derive"] }
crossterm = "=0.29.0"
zeroize = "=1.9.1"
path-absolutize = "=3.1.1"
pathdiff = "=0.2.3"
imageproc = "*"
