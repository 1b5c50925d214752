[package]
name = "raknet"
version = "0.1.0"
edition = "2021"
publish = false

[dependencies]
smallvec = { version = "1", features = ["const_generics"] }
bstr = { version = "1", default-features = false, features = ["alloc"] }
tokio = { version = "1", default-features = false, features = ["net"] }
