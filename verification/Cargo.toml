[package]
name = "pipewire_sample_rate_switcher"
version = "1.2.0"
edition = "2021"
publish = false

[dependencies]
clap = "*"
notify-rust = "*"
