[package]
name = "xui"
version = "0.1.0"
edition = "2021"
publish = false

[dependencies]
slotmap = "1"
rustc-hash = "*"
bitflags = "2"
smallvec = "1"
num-traits = "0.2"
quick_cache = "*"
tokio = { version = "1", default-features = false, features = ["rt"] }
taffy = "*"
