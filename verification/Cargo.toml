[package]
name = "helium"
version = "0.1.0"
edition = "2021"
publish = false

[dependencies]
bit_field = "=0.10.3"
x86_64 = { version = "=0.15.5", default-features = false, features = ["instructions"] }
limine = "=0.5.0"
spin = "=0.12.3"
lazy_static = "=1.5.1"
uart_16550 = "=0.3.2"
