[package]
name = "status_tree"
version = "0.1.0"
edition = "2021"
publish = false

[dependencies]
asyncgit = { version = "0.1", default-features = false }
git2 = { version = "0.13", default-features = false }
tui = { version = "0.8", default-features = false }
