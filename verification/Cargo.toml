[package]
name = "foyer_block"
version = "0.1.0"
edition = "2021"
publish = false

[dependencies]
asyncband = { version = "=0.7.4", features = ["oneshot"] }
bytes = "=1.12.1"
fastant = "=0.1.11"
futures-core = "=0.3.34"
futures-util = "=0.3.34"
itertools = "=0.14.0"
mea = "=0.6.7"
parking_lot = "=0.12.5"
rand = "=0.9.5"
tokio = { version = "=1.54.1", features = ["rt-multi-thread", "sync", "time"] }
tracing = "=0.1.44"
twox-hash = "=2.1.5"
