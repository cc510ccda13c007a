[package]
name = "starcast_store"
version = "0.1.0"
edition = "2021"
publish = false

[dependencies]
crossbeam-epoch = "=0.9.21"
inetnum = "=0.1.1"
log = "=0.4.34"
rand = "=0.10.3"
clap = { version = "=4.6.7", features = ["derive"] }
csv = "=1.4.0"
memmap2 = "=0.9.11"
rayon = "=1.12.0"
routecore = { version = "=0.7.2", features = ["mrt"] }
rustyline = "=18.0.1"
ansi_term = "=0.12.1"
