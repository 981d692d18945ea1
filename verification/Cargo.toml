[package]
name = "dom_cloner"
version = "0.1.0"
edition = "2021"
publish = false

[dependencies]
rayon = "1"
rbx_dom_weak = "2"
rbx_types = "1"
rbx_xml = "0.13"
