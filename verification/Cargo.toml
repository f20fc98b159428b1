[package]
name = "power_meter"
version = "0.1.0"
edition = "2021"
publish = false

[dependencies]
cortex-m-rt = "=0.7.7"
defmt = "=1.2.0"
defmt-rtt = "=1.3.1"
embedded-hal = "=1.0.0"
fugit = "=0.3.9"
ina219 = "=0.2.1"
panic-probe = { version = "=1.0.0", features = ["print-defmt"] }
rp2040-boot2 = "=0.3.0"
rp2040-hal = { version = "=0.12.0", features = ["rt", "critical-section-impl"] }

[dev-dependencies]
libm = "=0.2.16"
