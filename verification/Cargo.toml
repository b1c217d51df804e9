[package]
name = "ratpak"
version = "0.1.0"
edition = "2021"
publish = false

[dependencies]
bit-vec = "*"
num = "*"
time = "*"
toml = "*"
libc = "*"
rustc-serialize = "*"
sdl2 = "*"
sndfile = "*"
rusb = "*"
