[package]
name = "http_playback_proxy"
version = "0.1.0"
edition = "2021"
publish = false

[dependencies]
anyhow = "=1.0.104"
base64 = "=0.23.1"
brotli = "=9.0.0"
bytes = "=1.12.1"
bytes-str = "=0.2.9"
clap = { version = "=4.6.7", features = ["derive"] }
encoding_rs = "=0.8.42"
flate2 = "=1.1.10"
futures = "=0.3.34"
html5ever = "=0.39.0"
http-body-util = "=0.1.5"
hudsucker = "=0.25.0"
lightningcss = "=1.0.0-alpha.72"
markup5ever_rcdom = "=0.39.0"
nix = { version = "=0.31.3", features = ["signal"] }
serde = { version = "=1.0.229", features = ["derive"] }
serde_json = "=1.0.151"
sha1 = "=0.11.0"
swc_common = "=26.0.0"
swc_ecma_codegen = "=32.0.3"
swc_ecma_parser = "=46.0.0"
tokio = { version = "=1.53.2", features = ["full"] }
url = "=2.5.8"

[dev-dependencies]
tempfile = "=3.27.0"
