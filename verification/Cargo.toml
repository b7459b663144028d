[package]
name = "uff"
version = "0.1.0"
edition = "2021"
publish = false

[dependencies]
clap = { version = "=4.6.7", features = ["derive"] }
inkwell = { version = "=0.1.1", features = ["llvm14-0"] }
llvm-sys = { version = "=140.1.3", features = ["prefer-dynamic"] }
once_cell = "=1.21.4"
regex = "=1.13.1"
tempfile = "=3.27.0"
tokio = { version = "=1.54.1", features = ["macros", "rt-multi-thread"] }
which = "=4.4.2"
