[package]
name = "moc"
version = "0.1.0"
edition = "2021"
publish = false

[dependencies]
slab = "0.4"
cdshealpix = "0.7"
rayon = "1"
flate2 = "1"
byteorder = "1"
num = "0.4"
