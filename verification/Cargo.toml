[package]
name = "kernel"
version = "0.1.0"
edition = "2021"
publish = false

[dependencies]
hashbrown = "=0.17.1"
allocator-api2 = "=0.2.21"
goblin = { version = "=0.10.7", default-features = false, features = ["std", "elf32", "elf64", "endian_fd"] }
log = "=0.4.34"
volatile = "=0.2.7"
fatfs = "=0.3.6"
