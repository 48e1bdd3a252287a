[package]
name = "pmm"
version = "0.1.0"
edition = "2021"
publish = false

[dependencies]
linked_list_allocator = "=0.10.6"
limine = "=0.5.0"
