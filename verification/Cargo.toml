[package]
name = "my_library"
version = "0.1.0"
edition = "2021"
publish = false

[dependencies]
anyhow = "1"
bevy = { version = "0.15", default-features = false, features = ["bevy_asset", "bevy_state"] }
rand = "0.9"
rand_pcg = "0.9"
rand_xorshift = "0.4"
trait-set = "0.3"
