[package]
name = "memflow_efi_service"
version = "0.1.0"
edition = "2021"
publish = false

[dependencies]
x86_64 = { version = "0.14", default-features = false, features = ["instructions"] }
r-efi = "4"
alloc-no-stdlib = "2"
