[package]
name = "agent_replay"
version = "0.1.0"
edition = "2021"
publish = false

[dependencies]
svg = "=0.18.0"
wasm-bindgen = "=0.2.129"

[dev-dependencies]
proconio = "=0.6.0"
