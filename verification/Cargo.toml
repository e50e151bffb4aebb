[package]
name = "bvyfst_hollow_scene"
version = "0.1.0"
edition = "2021"
publish = false

[dependencies]
anyhow = "1"
ar = "*"
basis-universal = "*"
bevy = { version = "0.12", default-features = false, features = ["bevy_asset", "bevy_scene"] }
futures-io = "0.3"
rkyv = "0.7"
thiserror = "1"
tmf = "*"
