//! The Ascii85 encoding and decoding transducers and their model.

pub mod arith;
pub mod constants;
pub mod decoding;
pub mod encoding;
pub mod laws;
