//! Streaming Ascii85 (base-85) binary-to-text codec.
//!
//! The encoder turns a sequence of bytes into printable characters, four
//! bytes per five characters, with the `'z'` shorthand for a complete
//! all-zero group.  The decoder is its inverse.  Both work block-wise and
//! produce one element per call, and both accept sources whose elements are
//! either plain values or fallible values, normalized once at the boundary.

pub mod ascii85;
pub mod byte_result;
pub mod char_result;
pub mod errors;
