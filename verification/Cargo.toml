[package]
name = "declarative_pull"
version = "0.1.0"
edition = "2021"
publish = false

[dependencies]
timely = "=0.11.1"
differential-dataflow = "=0.11.0"
abomonation = "=0.7.3"
abomonation_derive = "=0.5.0"
getopts = "=0.2.24"
log = "=0.4.34"
env_logger = "=0.6.2"
serde = { version = "=1.0.229", features = ["derive"] }
serde_json = "=1.0.154"
