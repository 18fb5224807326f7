[package]
name = "led_cube"
version = "0.1.0"
edition = "2021"
publish = false

[dependencies]
rand = { version = "0.8", default-features = false }
rand_pcg = "0.3"
embedded-hal = "0.2"
gd32vf103xx-hal = "0.4"
longan-nano = { version = "0.2", features = ["lcd"] }
embedded-graphics = "0.6"
riscv-rt = "0.8"
