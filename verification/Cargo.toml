[package]
name = "rust_os"
version = "0.1.0"
edition = "2021"
publish = false

[dependencies]
bootloader = "=0.9.35"
conquer-once = "=0.2.1"
crossbeam-queue = "=0.2.3"
futures-util = { version = "=0.3.34", default-features = false, features = ["alloc"] }
lazy_static = { version = "=1.5.1", features = ["spin_no_std"] }
pc-keyboard = "=0.7.0"
pic8259 = { version = "=0.11.0", default-features = false }
spin = "=0.5.2"
x86_64 = { version = "=0.15.5", default-features = false, features = ["instructions"] }
