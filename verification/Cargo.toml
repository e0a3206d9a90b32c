[package]
name = "led_maze"
version = "0.1.0"
edition = "2021"
publish = false

[dependencies]
rand = { version = "0.7", default-features = false, features = ["small_rng"] }
embedded-hal = "0.2"
cortex-m = "0.6"
cortex-m-rtfm = "0.5"
stm32f0xx-hal = { version = "0.16", features = ["stm32f051", "rt"] }
panic-halt = "0.2"
