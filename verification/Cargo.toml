[package]
name = "mdict_index"
version = "0.1.0"
edition = "2021"
publish = false

[dependencies]
async-trait = "=0.1.92"
bytes = "=1.12.1"
encoding_rs = "=0.8.42"
flate2 = "=1.1.10"
log = "=0.4.34"
lzo1x = "=0.2.2"
mime = "=0.3.17"
mime_guess = "=2.0.5"
patricia_tree = "=0.10.2"
pretty_env_logger = "=0.5.0"
regex = "=1.13.1"
ripemd = "=0.1.3"
serde = { version = "=1.0.229", features = ["derive"] }
tinytemplate = "=1.2.1"
tokio = { version = "=1.54.1", features = ["full"] }
urlencoding = "=2.1.3"
warp = "=0.3.7"

[dev-dependencies]
adler32 = "=1.2.0"
