[package]
name = "ji_performer"
version = "0.1.0"
edition = "2021"
publish = false

[dependencies]
rational = "=1.10.0"
prime-factor = { version = "=0.7.0", default-features = false }
primes = "=0.4.0"
midly = { version = "=0.5.3", default-features = false, features = ["std", "alloc"] }
broadcaster = "=1.0.0"
ctrlc = "=3.5.2"
futures = "=0.3.34"
midir = "=0.11.1"
spin_sleep = "=1.3.3"
websocket = { version = "=0.27.1", default-features = false, features = ["sync"] }
