[package]
name = "clipboard_sync"
version = "0.2.0"
edition = "2021"
publish = false

[dependencies]
arboard = "3"
chrono = "0.4"
terminal-clipboard = "0.4"
wl-clipboard-rs = "0.8"
x11-clipboard = "0.5"
