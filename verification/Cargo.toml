[package]
name = "avatar_anim"
version = "0.1.0"
edition = "2021"
publish = false

[dependencies]
binrw = "*"
glam = "*"
llsd-rs = "*"
thiserror = "*"
