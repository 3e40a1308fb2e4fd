[package]
name = "pwm_audio"
version = "0.1.0"
edition = "2021"
publish = false

[dependencies]
cortex-m-rt = "0.7"
embedded-hal = "1"
microbit-v2 = "*"
panic-halt = "*"
