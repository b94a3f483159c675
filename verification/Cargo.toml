[package]
name = "msl_script_tools"
version = "0.2.0"
edition = "2021"
publish = false

[dependencies]
byteorder = "1"
clap = "2"
csv = "1"
encoding_rs = "0.8"
fldtools = "*"
serde = { version = "1", features = ["derive"] }
serde_derive = "1"
