[package]
name = "co_queue"
version = "0.1.0"
edition = "2021"
publish = false

[dependencies]
backtrace = "0.3"
futures-core = "0.3"
libc = "0.2"
num_cpus = "1"
thread-id = "*"

[dev-dependencies]
crossbeam = "0.8"
crossbeam-utils = "0.8"
