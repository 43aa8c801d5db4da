[package]
name = "vram_booster"
version = "0.1.0"
edition = "2021"
publish = false

[dependencies]
libc = "0.2"
tokio = { version = "1", features = ["macros", "rt-multi-thread", "fs", "time", "signal", "sync"] }
tracing = "0.1"
tracing-subscriber = "0.3"
zbus = { version = "5", default-features = false, features = ["tokio"] }
zvariant = "5"
