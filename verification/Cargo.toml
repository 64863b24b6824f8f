[package]
name = "pbr"
version = "0.1.0"
edition = "2021"
publish = false

[dependencies]
anyhow = "*"
color-eyre = "*"
enum-set = "*"
env_logger = "*"
itertools = "*"
light_arena = "*"
log = "*"
num = "*"
parking_lot = "*"
scoped_threadpool = "*"
tobj = "*"
