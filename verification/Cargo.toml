[package]
name = "fxv_diff_slint"
version = "0.1.0"
edition = "2021"
publish = false

[dependencies]
diffy = "*"
snafu = "*"
unicode-width = "*"
