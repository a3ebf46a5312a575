[package]
name = "arweave_dumper"
version = "0.1.0"
edition = "2021"
publish = false

[dependencies]
anyhow = "*"
apache-avro = "*"
arweave-rs = "*"
async-stream = "*"
base64 = "*"
clap = { version = "*", features = ["derive"] }
futures-core = "*"
futures-util = "*"
reqwest = { version = "*", default-features = false, features = ["json", "rustls-tls"] }
serde = { version = "*", features = ["derive"] }
serde-aux = "*"
serde_json = "*"
sha2 = "*"
tokio = { version = "*", features = ["rt-multi-thread", "macros", "fs", "io-util"] }
tokio-util = { version = "*", features = ["io"] }

[dev-dependencies]
hex = "*"
