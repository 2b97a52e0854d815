[package]
name = "pulz_schedule"
version = "0.1.0"
edition = "2021"
publish = false

[dependencies]
bit-set = "*"
threadpool = "*"
thiserror = "*"
atomic_refcell = "*"
crossbeam-utils = "*"
fnv = "*"
slotmap = "*"
hashbrown = "*"
once_cell = "*"
