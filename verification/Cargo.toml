[package]
name = "cryonet"
version = "0.1.0"
edition = "2021"
publish = false

[dependencies]
aes-gcm = "*"
anyhow = "*"
async-trait = "*"
bytes = "*"
cidr = "*"
clap = { version = "4", features = ["derive", "env"] }
clap-num = "*"
futures = "*"
p256 = { version = "*", features = ["ecdh"] }
pnet_packet = "*"
reqwest = { version = "*", default-features = false }
reqwest-websocket = "*"
rustrtc = "*"
serde = { version = "1", features = ["derive"] }
serde_json = "1"
sha2 = "*"
tempfile = "*"
thiserror = "*"
tokio = { version = "1", features = ["full"] }
tokio-tungstenite = "*"
tracing = "*"
tracing-subscriber = { version = "*", features = ["env-filter"] }
tun-rs = { version = "*", features = ["async"] }
uuid = { version = "1", features = ["v4", "serde"] }
