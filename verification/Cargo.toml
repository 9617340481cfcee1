[package]
name = "find-similar-words"
version = "0.1.0"
edition = "2021"
publish = false

[dependencies]
argparse = "=0.2.2"
espeakng = "=0.2.0"
espeakng-sys = "=0.3.0"
levenshtein = "=1.0.5"
streaming-iterator = "=0.1.9"
unicode-segmentation = "=1.13.3"
union-find-rs = "=0.2.1"
whatlang = "=0.16.4"
