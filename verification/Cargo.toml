[package]
name = "ring_lwe"
version = "0.1.0"
edition = "2021"
publish = false

[dependencies]
# The library needs the integers of rug only. The program under app/ needs
# its `float` feature as well.
rug = { version = "=1.19.2", default-features = false, features = ["integer"] }
# The back end of rug. It is named only to make it link the GMP that is
# installed on the machine; no code of this crate calls it.
gmp-mpfr-sys = { version = "=1.5.3", default-features = false, features = ["use-system-libs"] }
rand = "=0.9.5"
