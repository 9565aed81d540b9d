[package]
name = "tilegrid"
version = "0.1.0"
edition = "2021"
publish = false

[dependencies]
image = { version = "0.25", default-features = false, features = ["png"] }
geo = "0.28"
thiserror = "1"
bevy = { version = "0.14", default-features = false, features = ["bevy_asset"] }
avian2d = { version = "0.1", default-features = false, features = ["2d", "f32", "parry-f32"] }
