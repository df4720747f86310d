[package]
name = "libkernel"
version = "0.1.0"
edition = "2021"
publish = false

[dependencies]
object = "*"
ringbuf = "0.4"
log = "0.4"

[dev-dependencies]
rand = "*"
