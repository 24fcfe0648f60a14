[package]
name = "segmented_changelog"
version = "0.1.0"
edition = "2021"
publish = false

[dependencies]
anyhow = "1"
async-trait = "0.1"
auto_impl = "1"
bytes = "1"
futures = "0.3"
gotham = "0.7"
gotham_derive = "0.7"
hyper = "0.14"
nonzero_ext = "0.3"
serde = { version = "1", features = ["derive"] }
serde_derive = "1"
