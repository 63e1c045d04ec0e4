[package]
name = "markhor"
version = "0.1.0"
edition = "2021"
publish = false

[dependencies]
pulldown-cmark = { version = "=0.12.2", default-features = false }
tiktoken-rs = "=0.12.1"
base64 = "=0.22.1"
uuid = { version = "=1.29.0", features = ["v4", "serde"] }
url = "=2.5.8"
sha2 = "=0.10.9"
hex = "=0.4.3"
mime = "=0.3.17"
mime_guess2 = "=2.3.1"
serde = { version = "=1.0.229", features = ["derive"] }
serde_json = "=1.0.154"
serde_yaml_ng = "=0.10.0"
anyhow = "=1.0.104"
thiserror = "=2.0.21"
tokio = { version = "=1.54.1", features = ["rt-multi-thread", "macros", "fs", "sync", "io-util", "process", "time"] }
reqwest = { version = "=0.12.28", default-features = false, features = ["json"] }
secrecy = "=0.10.3"
async-trait = "=0.1.92"
tracing = "=0.1.44"
clap = { version = "=4.6.7", features = ["derive"] }
tempfile = "=3.27.0"
tracing-subscriber = { version = "0.3", features = ["env-filter"] }
dotenv = "0.15"
textwrap = "*"
console = "*"
reedline = "*"
nu-ansi-term = "*"
