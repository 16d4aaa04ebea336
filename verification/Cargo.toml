[package]
name = "asciicam"
version = "0.1.0"
edition = "2021"
publish = false

[dependencies]
clap = "=3.2.25"
crossterm = "=0.25.0"
log = "=0.4.34"
nokhwa = { version = "=0.10.11", default-features = false }
simple_logger = "=2.3.0"
tui = "=0.19.0"
