[package]
name = "dloom_flow"
version = "0.1.0"
edition = "2021"
publish = false

[dependencies]
anchor-lang = "=0.30.1"
anchor-spl = "=0.30.1"
bytemuck = { version = "=1.25.2", features = ["derive", "min_const_generics"] }
mpl-token-metadata = "=4.1.2"
