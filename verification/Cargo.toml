[package]
name = "bitstream_converter"
version = "0.1.0"
edition = "2021"
publish = false

[dependencies]
bytes = "*"
image = { version = "*", default-features = false }
openh264 = "*"
rml_rtmp = "*"
tracing = "*"
