[package]
name = "wasm_metering"
version = "0.1.0"
edition = "2021"
publish = false

[dependencies]
wasmer-runtime-core = "*"
wasmer-runtime = "*"
wasmer-clif-backend = "*"
wasmer-singlepass-backend = "*"
wasmer-llvm-backend = "*"
