[package]
name = "kernel_mem"
version = "0.1.0"
edition = "2021"
publish = false

[dependencies]
x86_64 = "*"
multiboot2 = "*"
spin = "*"
volatile = "*"
linked_list_allocator = "*"
