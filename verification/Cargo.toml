[package]
name = "vortex_verus"
version = "0.1.0"
edition = "2021"
publish = false

[dependencies]
bytes = "=1.12.1"
fastlanes = "*"
futures = "=0.3.34"
object_store = "=0.14.2"
url = "=2.5.8"
