[package]
name = "swim_rs"
version = "0.1.0"
edition = "2021"
publish = false

[dependencies]
anyhow = "1"
clap = { version = "4", features = ["derive"] }
mio = { version = "1", features = ["os-poll", "net"] }
postcard = { version = "1", default-features = false, features = ["alloc"] }
rand = "0.9"
serde = { version = "1", features = ["derive"] }
tracing = "0.1"
tracing-subscriber = "0.3"
