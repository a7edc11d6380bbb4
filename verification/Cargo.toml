[package]
name = "webrtc_codec"
version = "0.1.0"
edition = "2021"
publish = false

[dependencies]
rand = "0.7"
failure = "0.1"
webrtc-sdp = "0.3"
