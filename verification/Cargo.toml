[package]
name = "openapi_generator"
version = "0.1.0"
edition = "2021"
publish = false

[dependencies]
url = "2"
heck = "0.4"
anyhow = "1"
openapiv3 = "1"
serde_yaml = "0.9"
handlebars = "4"
walkdir = "2"
log = "0.4"
pretty_env_logger = "0.5"
structopt = "0.3"
glob = "0.3"
which = "*"
