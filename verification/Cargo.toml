[package]
name = "bgm_codec"
version = "0.1.0"
edition = "2021"
publish = false

[dependencies]
log = "0.4"
smallvec = "1"
tinystr = "0.4"
