[package]
name = "llm_xml_caster"
version = "0.1.0"
edition = "2021"
publish = false

[dependencies]
dashmap = "*"
genai = "*"
