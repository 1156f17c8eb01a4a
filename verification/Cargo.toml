[package]
name = "k1k"
version = "1.0.0"
edition = "2021"
publish = false

[dependencies]
x86_64 = { version = "=0.15.5", default-features = false, features = ["instructions"] }
limine = "=0.5.0"
spin = "=0.12.3"
linked_list_allocator = "=0.10.6"
