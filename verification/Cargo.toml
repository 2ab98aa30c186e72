[package]
name = "startup_tree_core"
version = "0.1.0"
edition = "2021"
publish = false

[dependencies]
bevy_app = { version = "0.13", default-features = false }
bevy_ecs = { version = "0.13", default-features = false }
proc-macro2 = "=1.0.107"
quote = "=1.0.47"
rand = { version = "=0.8.8", features = ["small_rng"] }
syn = { version = "=2.0.119", features = ["full", "extra-traits"] }
