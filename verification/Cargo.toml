[package]
name = "probe_rp_usb"
version = "0.2.0"
edition = "2021"
publish = false

[dependencies]
anyhow = "=1.0.104"
clap = { version = "=4.6.7", features = ["derive"] }
defmt-decoder = "=1.2.0"
elf = "=0.8.0"
env_logger = "=0.11.11"
indicatif = "=0.18.6"
log = "=0.4.35"
nusb = "=0.2.9"
serialport = { version = "=4.10.1", default-features = false, features = ["usbportinfo-interface"] }
supports-unicode = "=3.0.0"
sysinfo = "=0.40.1"
wdi-rs = "=0.1.1"
