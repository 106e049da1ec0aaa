[package]
name = "os_kernel"
version = "0.1.0"
edition = "2021"
publish = false

[dependencies]
bitflags = "1.3"
buddy_system_allocator = "0.6"
lazy_static = "1.4"
