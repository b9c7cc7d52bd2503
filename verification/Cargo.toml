[package]
name = "rx-core"
version = "0.1.0"
edition = "2021"
publish = false

[dependencies]
aes = "=0.7.5"
block-modes = "=0.8.1"
itertools = "=0.15.0"
encoding_rs = "=0.8.44"
uuid = { version = "=1.29.1", features = ["v5"] }
serde = { version = "=1.0.229", features = ["derive"] }
serde_json = "=1.0.154"
serde_yaml = "=0.9.34"
serde_json5 = "=0.2.1"
ron = "=0.12.3"
chrono = "=0.4.45"
dirs = "=7.0.0"
fs_extra = "=1.3.0"
tracing = "=0.1.44"
tracing-subscriber = { version = "=0.3.23", features = ["time", "local-time"] }
time = { version = "=0.3.55", features = ["formatting", "parsing"] }
rand = "=0.9.5"
anyhow = "=1.0.104"
geo-types = "=0.7.20"
num-traits = "=0.2.19"
tempfile = "=3.27.0"
html5ever = "=0.39.0"
markup5ever_rcdom = "=0.39.0"
regex = "=1.13.1"
