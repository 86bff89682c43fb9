[package]
name = "playground"
version = "0.1.0"
edition = "2021"
publish = false

[dependencies]
serde = { version = "1", features = ["derive"] }
serde_json = "1"
crossbeam-channel = "0.5"
sha3 = "0.10"
syn = { version = "2", features = ["full", "visit-mut"] }
quote = "1"
proc-macro2 = "1"
tracing = "0.1"
isahc = { version = "1", default-features = false }
http = "0.2"
color-eyre = "0.6"
futures = "0.3"
tokio = { version = "1", features = ["macros", "rt-multi-thread"] }
async-std = "1"
argh = "0.1"
