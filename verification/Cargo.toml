[package]
name = "sensitive_rs"
version = "0.1.0"
edition = "2021"
publish = false

[dependencies]
aho-corasick = "1"
hashbrown = "*"
lru = "*"
pinyin = "*"
rayon = "1"
regex = "1"
reqwest = { version = "*", default-features = false, features = ["blocking"] }
smallvec = "1"
