[package]
name = "cargo-tally"
version = "0.1.0"
edition = "2021"
publish = false

[dependencies]
anyhow = "=1.0.104"
bytesize = "*"
chrono = "=0.4.45"
clap = "=4.6.7"
db-dump = "=0.10.0"
minipre = "=0.2.0"
num_cpus = "=1.17.0"
opener = "=0.9.0"
regex = "=1.13.1"
semver = "=1.0.28"
string-interner = "=0.20.0"
sysinfo = "=0.39.6"
termcolor = "=1.4.1"
