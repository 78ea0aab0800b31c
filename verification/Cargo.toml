[package]
name = "shrt"
version = "0.1.0"
edition = "2021"
publish = false

[dependencies]
bytes = "1"
ctrlc = { version = "3", features = ["termination"] }
http-body-util = "0.1"
httparse = "1"
hyper = { version = "1", features = ["http1", "server"] }
hyper-util = { version = "0.1", features = ["tokio"] }
libc = "0.2"
mimalloc = { version = "0.1", default-features = false }
parking_lot = "0.12"
rand = "0.9"
rocksdb = { version = "0.23", default-features = false, features = ["lz4"] }
rustc-hash = "2"
serde = { version = "1", features = ["derive"] }
socket2 = { version = "0.5", features = ["all"] }
sonic-rs = "0.3"
tokio = { version = "1", features = ["net", "rt-multi-thread"] }
url = "2"

[dev-dependencies]
serde_json = "1"
