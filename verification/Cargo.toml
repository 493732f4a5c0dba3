[package]
name = "call_to_exist_gui_lib"
version = "0.1.0"
edition = "2021"
publish = false

[dependencies]
bitstream-io = "=4.10.0"
half = "=2.7.1"
image = { version = "=0.25.10", default-features = false, features = ["png"] }
bcdec_rs = "=0.2.1"
serde = { version = "=1.0.229", features = ["derive"] }
serde_json = "1"
pyo3 = "=0.30.1"
