[package]
name = "snailtrail"
version = "0.1.0"
edition = "2021"
publish = false

[dependencies]
timely = "=0.10.0"
tdiag-connect = "=0.2.0"
st2-logformat = "=0.1.0"
