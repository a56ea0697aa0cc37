[package]
name = "kmain"
version = "0.1.0"
edition = "2021"
publish = false

[dependencies]
dtoolkit = "=0.4.1"
elf = "=0.8.0"
heapless = "=0.9.3"
linked_list_allocator = "=0.10.6"
log = "=0.4.35"
riscv = "=0.16.1"
smoltcp = { version = "=0.14.0", features = ["socket-tcp-cubic"] }
spin = "=0.12.3"
thingbuf = { version = "=0.1.6", features = ["static"] }
tracing = "=0.1.44"
