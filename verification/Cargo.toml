[package]
name = "retained_tree"
version = "0.1.0"
edition = "2021"
publish = false

[dependencies]
gtk4 = "0.4"
dioxus = "0.2"
dioxus-core = "0.2"
taffy = "0.1"
futures = "0.3"
snafu = "0.7"
bumpalo = "3"
