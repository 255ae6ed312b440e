[package]
name = "noise_io"
version = "0.1.0"
edition = "2021"
publish = false

[dependencies]
snow = "*"
futures = "*"
log = "*"
libp2p-core = "*"
asynchronous-codec = "*"
bytes = "*"
prost = "*"
unsigned-varint = { version = "*", features = ["asynchronous_codec"] }
