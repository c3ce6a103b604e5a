[package]
name = "aioc"
version = "0.1.0"
edition = "2021"
publish = false

[dependencies]
bootloader = { version = "0.9", default-features = false, features = ["map_physical_memory"] }
conquer-once = { version = "0.3", default-features = false }
crossbeam-queue = { version = "0.3", default-features = false, features = ["alloc"] }
futures-util = { version = "0.3", default-features = false, features = ["alloc"] }
lazy_static = { version = "1", features = ["spin_no_std"] }
pc-keyboard = "0.7"
pic8259 = { version = "0.10", default-features = false }
smoltcp = { version = "0.11", default-features = false, features = ["alloc", "medium-ethernet", "proto-ipv4", "proto-dhcpv4", "socket-dhcpv4", "socket-tcp"] }
spin = "0.9"
volatile = "0.2"
x86_64 = { version = "0.14", default-features = false, features = ["instructions"] }
