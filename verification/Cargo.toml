[package]
name = "poke_mcts"
version = "0.1.0"
edition = "2021"
publish = false

[dependencies]
dashmap = "6"
foldhash = "0.2"
libc = "0.2"
rand = { version = "0.9", features = ["small_rng"] }
windows-sys = { version = "0.59", features = ["Win32_System_Memory"] }
