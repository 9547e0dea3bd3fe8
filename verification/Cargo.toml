[package]
name = "plotz"
version = "0.1.0"
edition = "2021"
publish = false

[dependencies]
petgraph = "=0.8.3"
anyhow = "=1.0.104"
argh = "=0.1.19"
glob = "=0.3.4"
float-cmp = "=0.10.0"
float-ord = "=0.3.2"
thiserror = "=2.0.21"
shapefile = "*"
string-interner = "*"
