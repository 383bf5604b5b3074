[package]
name = "category_predictor"
version = "0.1.0"
edition = "2021"
publish = false

[dependencies]
fuzzywuzzy = "*"
rayon = "1"
unidecode = "*"
savefile = "*"
savefile-derive = "*"

[dev-dependencies]
regex = "1"
