[package]
name = "grid_mirror"
version = "0.1.0"
edition = "2021"
publish = false

[dependencies]
actix = "=0.13.5"
actix-web = { version = "=4.18.1", default-features = false, features = ["macros"] }
clap = "=4.6.7"
diesel = { version = "=2.3.14", features = ["postgres", "r2d2"] }
flexi_logger = "=0.31.10"
futures = "=0.3.34"
log = "=0.4.34"
reqwest = { version = "=0.12.28", default-features = false, features = ["blocking", "json"] }
serde = { version = "=1.0.229", features = ["derive"] }
