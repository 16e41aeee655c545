[package]
name = "network_common"
version = "0.1.0"
edition = "2021"
publish = false

[dependencies]
base64 = "=0.21.7"
sha1 = "=0.10.7"
serde = { version = "=1.0.229", features = ["derive"] }
serde_json = "=1.0.154"
meval = "=0.2.0"
tokio = { version = "=1.54.1", features = ["macros", "rt-multi-thread", "net"] }

[dev-dependencies]
nom = "=7.1.3"
itertools = "=0.15.0"
