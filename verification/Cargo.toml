[package]
name = "iota_buffer"
version = "0.1.0"
edition = "2021"
publish = false

[dependencies]
gapbuffer = "=0.1.1"
