[package]
name = "bmc_installer"
version = "0.1.0"
edition = "2021"
publish = false

[dependencies]
anyhow = "1"
bytes = "1"
clap = { version = "4", features = ["derive"] }
crc = "3"
evdev = "0.12"
i2c-linux = "*"
nix = { version = "*", features = ["ioctl", "mount"] }
retry = "2"
thiserror = "1"
usb-gadget = "*"
