[package]
name = "rdf2hdt"
version = "0.1.0"
edition = "2021"
publish = false

[dependencies]
chrono = "0.4"
crc = "=3.4.0"
hdt = "=0.7.3"
log = "=0.4.34"
sophia = { version = "=0.10.0", features = ["xml"] }
tempfile = "=3.27.0"
