//! The `ByteResult` trait: byte-like source elements.
//!
//! A source of the encoder may hold plain bytes or fallible bytes.  Both
//! are normalized once, at the sequence boundary, to `Result<u8, CodecError>`
//! through this trait.

use vstd::prelude::*;

verus! {

use crate::errors::CodecError;

/// A source element that resolves to a byte or a failure.
///
/// For `u8` the resolution always succeeds; for `Result<u8, CodecError>`
/// it is the value itself.
pub trait ByteResult: Sized {
    /// The byte or failure this element stands for.
    spec fn byte_spec(self) -> Result<u8, CodecError>;

    /// Resolves this element to a byte or a failure.
    fn byte_result(self) -> (r: Result<u8, CodecError>)
        ensures
            r == self.byte_spec(),
    ;
}

/// The byte-or-failure elements a whole source stands for.
pub open spec fn byte_elems_of<T: ByteResult>(s: Seq<T>) -> Seq<Result<u8, CodecError>> {
    s.map_values(|x: T| x.byte_spec())
}

impl ByteResult for u8 {
    open spec fn byte_spec(self) -> Result<u8, CodecError> {
        Ok(self)
    }

    fn byte_result(self) -> (r: Result<u8, CodecError>) {
        Ok(self)
    }
}

impl ByteResult for Result<u8, CodecError> {
    open spec fn byte_spec(self) -> Result<u8, CodecError> {
        self
    }

    fn byte_result(self) -> (r: Result<u8, CodecError>) {
        self
    }
}

} // verus!
