[package]
name = "imgname"
version = "0.1.0"
edition = "2021"
publish = false

[dependencies]
chrono = "*"
clap = "*"
filetime = "*"
kamadak-exif = "*"
same-file = "*"
