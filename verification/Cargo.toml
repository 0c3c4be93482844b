[package]
name = "object_store"
version = "0.1.0"
edition = "2021"

[dependencies]
async-io = "=2.6.0"
bitflags = "=2.13.2"
chacha20 = "=0.9.1"
efs = "0.3"
fatfs = "=0.3.6"
libc = "=0.2.191"
lru = "=0.12.5"
mayheap = "=0.2.0"
rand = "=0.8.8"
tracing = "=0.1.44"
