[package]
name = "net_device_mapping"
version = "0.1.0"
edition = "2021"
publish = false

[dependencies]
anyhow = "1"
async-oneshot = "*"
async-thread = "*"
aya = "*"
crossterm = "*"
ctrlc = "*"
futures = "0.3"
glob = "*"
itertools = "*"
libc = "0.2"
libmount-sys = "*"
mountinfo = "*"
rtnetlink = "*"
thiserror = "*"
tokio = { version = "1", features = ["full"] }
tokio-stream = { version = "*", features = ["sync"] }
uuid = { version = "1", features = ["v4"] }
