[package]
name = "file_system_backup"
version = "0.1.0"
edition = "2021"
publish = false

[dependencies]
bytes = "=1.12.1"
chrono = "=0.4.45"
clap = { version = "=4.6.7", features = ["derive"] }
color-eyre = "=0.6.5"
csv = "=1.4.0"
ctrlc = "=3.5.2"
dav-server = "=0.11.0"
edirstat-core = "*"
env_logger = "=0.11.11"
fastrand = "=2.5.0"
flate2 = "=1.1.10"
futures-util = "=0.3.34"
http = "=1.5.0"
hyper = { version = "=1.12.0", features = ["server", "http1"] }
hyper-util = { version = "=0.1.21", features = ["server-auto", "tokio"] }
icu = { version = "=2.4.0", features = ["compiled_data"] }
indicatif = "=0.17.11"
jwalk = "=0.8.1"
log = "=0.4.35"
ntfs = "=0.4.0"
num-traits = "=0.2.19"
serde = { version = "=1.0.229", features = ["derive"] }
tempfile = "=3.27.0"
thread-priority = "=3.1.1"
tokio = { version = "=1.54.1", features = ["rt-multi-thread", "net", "sync", "macros"] }
unicase = "=2.10.0"
urlencoding = "=2.1.3"
