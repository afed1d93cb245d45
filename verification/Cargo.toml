[package]
name = "doxsearch"
version = "0.1.0"
edition = "2021"
publish = false

[dependencies]
anyhow = "1"
chrono = "0.4"
flate2 = "1"
jwalk = "0.8"
open = "5"
pdf-extract = "0.7"
quick-xml = "0.31"
rayon = "1"
regex = "1"
rfd = { version = "0.14", default-features = false, features = ["xdg-portal", "async-std"] }
slint = { version = "1", default-features = false, features = ["compat-1-2", "std"] }
zip = { version = "0.6", default-features = false, features = ["deflate"] }
