[package]
name = "haremal-ctrl"
version = "0.1.0"
edition = "2021"
publish = false

[dependencies]
locale-codes = "=0.3.0"
dioxus = { version = "=0.7.10", default-features = false, features = ["macro", "html", "signals", "hooks"] }
tokio = { version = "=1.54.1", features = ["process", "io-util", "time", "macros", "rt"] }
fontdb = "=0.23.0"
futures-util = "=0.3.34"
rfd = "=0.15.4"
bluer = { version = "=0.17.4", features = ["bluetoothd"] }
udev = "=0.9.3"
serde_json = "=1.0.154"
