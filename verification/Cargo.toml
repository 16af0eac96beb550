[package]
name = "ostp"
version = "0.4.6"
edition = "2021"
publish = false

[dependencies]
anyhow = "=1.0.104"
axum = "=0.8.9"
base64 = "=0.22.1"
chacha20poly1305 = "=0.10.1"
chrono = { version = "0.4", default-features = false, features = ["clock"] }
hkdf = "=0.12.4"
hmac = "=0.12.1"
httparse = "=1.10.1"
instant-acme = { version = "=0.8.5", default-features = false, features = ["hyper-rustls", "ring"] }
json_comments = "=0.2.2"
qrcode = { version = "=0.14.1", default-features = false, features = ["svg"] }
rand = "=0.8.8"
rcgen = { version = "=0.14.10", default-features = false, features = ["crypto", "pem", "ring"] }
reqwest = { version = "=0.12.28", default-features = false, features = ["rustls-tls-webpki-roots", "socks"] }
rustls = { version = "=0.23.46", default-features = false, features = ["logging", "ring", "std", "tls12"] }
serde = { version = "=1.0.229", features = ["derive"] }
serde_json = "=1.0.154"
sha1 = "=0.10.7"
sha2 = "=0.10.9"
simple-dns = "=0.13.0"
snow = { version = "=0.9.6", features = ["risky-raw-split"] }
socket2 = "=0.5.10"
subtle = "=2.6.1"
tokio = { version = "=1.54.1", features = ["full"] }
tokio-rustls = { version = "=0.26.6", default-features = false, features = ["ring", "tls12", "logging"] }
tracing = "=0.1.44"
tracing-subscriber = "=0.3.23"
webpki-roots = "=1.0.10"
x25519-dalek = { version = "=2.0.1", features = ["static_secrets"] }
x509-parser = "=0.18.1"
