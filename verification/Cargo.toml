[package]
name = "moka"
version = "0.12.0"
edition = "2021"
publish = false

[dependencies]
dashmap = "=5.5.3"
smallvec = "=1.16.4"
crossbeam-channel = "=0.5.17"
count-min-sketch = "=0.2.0"
parking_lot = "=0.12.5"
quanta = "=0.12.6"
once_cell = "=1.21.4"
log = "=0.4.35"
thiserror = "=1.0.69"
scheduled-thread-pool = "=0.2.8"
async-lock = "=2.8.0"
futures-util = "=0.3.34"
tokio = { version = "=1.54.1", features = ["rt", "time"] }
