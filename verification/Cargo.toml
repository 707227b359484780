[package]
name = "telekin"
version = "1.0.8"
edition = "2021"
publish = false

[dependencies]
anyhow = "=1.0.104"
argon2 = "=0.6.0"
clap = { version = "=4.6.7", default-features = false, features = ["derive", "std", "help", "usage", "error-context"] }
eframe = { version = "=0.36.2", default-features = false, features = ["glow", "x11", "default_fonts"] }
egui = "=0.36.2"
libc = "=0.2.191"
mdns-sd = "=0.21.7"
openh264 = "=0.6.6"
openh264-sys2 = "=0.6.6"
postcard = { version = "=1.1.3", default-features = false, features = ["use-std"] }
quinn = { version = "=0.11.12", default-features = false, features = ["runtime-tokio", "rustls-ring"] }
rcgen = "=0.13.2"
rpassword = "=7.5.4"
rustls = { version = "=0.23.46", default-features = false, features = ["ring", "std"] }
serde = { version = "=1.0.229", features = ["derive"] }
serde_json = "=1.0.154"
sha2 = "=0.10.9"
tokio = { version = "=1.54.1", features = ["rt-multi-thread", "macros", "net", "io-util", "fs", "sync", "time", "signal"] }
tracing = "=0.1.44"
tracing-subscriber = { version = "=0.3.23", default-features = false, features = ["fmt", "env-filter"] }
ureq = "=2.12.1"
x11rb = { version = "=0.13.2", features = ["shm", "xtest", "randr", "damage", "xfixes"] }
