[package]
name = "keypad_core"
version = "0.1.0"
edition = "2021"
publish = false

[dependencies]
arrayvec = { version = "=0.5.2", default-features = false }
cortex-m = "=0.6.7"
cortex-m-rt = "=0.6.15"
embedded-graphics = "=0.6.2"
embedded-hal = "=0.2.7"
seeed-erpc = "=0.1.1"
usb-device = "=0.2.9"
usbd-hid = "=0.6.2"
wio_terminal = "=0.3.0"
