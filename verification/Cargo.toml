[package]
name = "foo_compiler"
version = "0.1.0"
edition = "2021"
publish = false

[dependencies]
ariadne = "=0.6.0"
chumsky = "=0.13.0"
clap = { version = "=4.6.7", features = ["derive"] }
cranelift = { version = "=0.128.4", features = ["jit", "module", "native", "frontend"] }
slotmap = "=1.1.1"
sysexits = "=0.13.0"
