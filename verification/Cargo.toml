[package]
name = "xsec"
version = "0.1.0"
edition = "2021"
publish = false

[dependencies]
aes-gcm = "=0.11.1"
argon2 = "=0.6.0"
base64ct = { version = "=1.8.3", features = ["alloc"] }
clap = { version = "=4.6.7", features = ["derive"] }
core-foundation = "*"
dotenvy = "=0.15.7"
getrandom = "=0.4.3"
hkdf = "=0.13.0"
hmac = "=0.13.0"
objc2 = "*"
objc2-foundation = "*"
objc2-local-authentication = "*"
rpassword = "=7.5.4"
secrecy = "=0.10.3"
secure-types = "=0.5.16"
security-framework = "*"
security-framework-sys = "*"
sha2 = "=0.11.1"
tempfile = "=3.27.0"
thiserror = "=2.0.21"
tokio = { version = "=1.54.1", features = ["full"] }
windows = { version = "*", features = ["Foundation", "Security_Credentials", "Security_Cryptography", "Storage_Streams"] }
zbus = "5"
zbus_polkit = "5"
zeroize = "=1.9.1"
