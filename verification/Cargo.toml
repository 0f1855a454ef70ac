[package]
name = "gdsunrise"
version = "0.1.0"
edition = "2021"
publish = false

[dependencies]
futures = "0.3"
godot = "*"
kuzu = "*"
tokio = { version = "1", features = ["rt-multi-thread", "sync", "macros"] }
twitch-irc = "*"
warp = "0.3"
