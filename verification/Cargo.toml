[package]
name = "t2totp"
version = "0.1.0"
edition = "2021"
publish = false

[dependencies]
zeroize = "=1.9.1"
image = { version = "0.24", default-features = false, features = ["png"] }
rqrr = { version = "=0.10.1", default-features = false }
hidapi = { version = "=2.6.7", default-features = false, features = ["linux-native-basic-udev"] }
enigo = { version = "0.2", default-features = false, features = ["x11rb"] }
global-hotkey = "=0.6.4"
