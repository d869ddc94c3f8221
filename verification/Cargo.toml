[package]
name = "meilidb"
version = "0.1.0"
edition = "2021"
publish = false

[dependencies]
deunicode = "*"
fst = "*"
sdset = "*"
heed = "*"
http = "*"
log = "*"
