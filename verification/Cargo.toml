[package]
name = "osiris"
version = "0.1.0"
edition = "2021"
publish = false

[dependencies]
x86_64 = "*"
os_bootinfo = "*"
multiboot2 = "*"
linked_list_allocator = "*"
