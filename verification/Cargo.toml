[package]
name = "product_bridge"
version = "0.1.0"
edition = "2021"
publish = false

[dependencies]
bigdecimal = "=0.4.11"
num-traits = "=0.2.19"
diesel = { version = "=2.3.14", features = ["postgres", "r2d2", "numeric"] }
cpython = "=0.7.2"
