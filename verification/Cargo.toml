[package]
name = "ray_tracer"
version = "0.1.0"
edition = "2021"
publish = false

[dependencies]
cgmath = "=0.17.0"
clap = "=2.34.0"
env_logger = "=0.7.1"
image = "=0.23.14"
log = "=0.4.34"
obj = "=0.9.1"
rand = "=0.7.3"
threadpool = "=1.8.1"
time = "=0.2.27"
