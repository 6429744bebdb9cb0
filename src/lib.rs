//! Keyboard layout search: keycodes and their decoding from text, ngram
//! frequency tables, multi-layer layouts with their path-maps and mutation
//! operators, and the discrete part of the typing-effort scorer.

pub mod keycode;
pub mod ngram;
pub mod position;
pub mod text;
pub mod error;
pub mod key;
pub mod grid;
pub mod layer;
pub mod pathmap;
pub mod layout;
pub mod random;
pub mod frequency;
pub mod scoring;
pub mod presets;
pub mod render;
