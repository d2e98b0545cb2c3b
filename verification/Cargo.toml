[package]
name = "syng_dictionary"
version = "0.1.0"
edition = "2021"
publish = false

[dependencies]
regex = "=1.13.1"
prettify_pinyin = "=2.0.0"
hsk = "=0.1.1"
bincode = "=1.3.3"
serde = "=1.0.229"
serde_derive = "=1.0.229"
