[package]
name = "paxos"
version = "0.1.0"
edition = "2021"
publish = false

[dependencies]
bytes = "=1.12.1"
chashmap = "=2.2.2"
crossbeam = "=0.8.5"
log = "=0.4.34"
once_cell = "=1.21.4"
zmq = "=0.10.0"

[dev-dependencies]
protobuf = "=3.7.2"
