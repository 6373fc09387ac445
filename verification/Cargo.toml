[package]
name = "nyaux_kt"
version = "0.1.0"
edition = "2021"
publish = false

[dependencies]
rustc-demangle = "*"
limine = "*"
spin = "*"
bitflags = "*"
owo-colors = "*"
volatile = "*"
hashbrown = "*"
build_timestamp = "*"
flanterm_bindings = "*"
