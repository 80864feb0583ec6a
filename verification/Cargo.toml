[package]
name = "calculator"
version = "0.1.0"
edition = "2021"
publish = false

[dependencies]
anyhow = "1"
axum = "0.8"
num-complex = "0.4"
rayon = "1"
rmcp = { version = "0.8", features = ["server", "macros", "transport-io", "transport-streamable-http-server"] }
schemars = "1"
serde = { version = "1", features = ["derive"] }
thiserror = "2"
tokio = { version = "1", features = ["macros", "rt-multi-thread", "net", "signal", "io-std"] }
tokio-util = "0.7"
