[package]
name = "roxy_kernel"
version = "0.1.0"
edition = "2021"
publish = false

[dependencies]
bootloader_api = "=0.11.17"
x86_64 = { version = "=0.15.5", default-features = false, features = ["instructions"] }
linked_list_allocator = "=0.10.6"
log = "=0.4.34"
