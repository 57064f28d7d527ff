[package]
name = "charlotte_kafka_broker"
version = "0.1.0"
edition = "2021"
publish = false

[dependencies]
sitas-core = "0.2.0"
sitas-unix = "0.2.0"
