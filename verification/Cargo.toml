[package]
name = "cqdb"
version = "0.1.0"
edition = "2021"

[dependencies]
array-init = "2"
bitflags = "1.3"
bstr = { version = "1", default-features = false, features = ["std"] }
jhash = "*"
libc = "0.2"
