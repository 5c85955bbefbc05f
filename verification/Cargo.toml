[package]
name = "hue_scheduler"
version = "0.1.0"
edition = "2021"
publish = false

[dependencies]
chrono = "*"
chrono-tz = "*"
dotenv = "*"
huelib2 = "*"
sun-times = "*"
