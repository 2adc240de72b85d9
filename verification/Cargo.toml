[package]
name = "backuppc_pool_reader"
version = "0.1.0"
edition = "2021"
publish = false

[dependencies]
byteorder = "1"
clap = { version = "4", features = ["derive"] }
env_logger = "*"
flate2 = "1"
fuser = "*"
libc = "0.2"
log = "0.4"
lru = "*"
num-traits = "0.2"
rand = "*"
twox-hash = "*"
