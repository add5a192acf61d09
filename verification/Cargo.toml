[package]
name = "mixdown"
version = "0.1.0"
edition = "2021"
publish = false

[dependencies]
csv = "*"
hound = "*"
samplerate = "*"
symphonia = "*"
vorbis-encoder = "*"
