//! The `CharResult` trait: character-like source elements.
//!
//! A source of the decoder may hold plain characters or fallible
//! characters.  Both are normalized once, at the sequence boundary, to
//! `Result<char, CodecError>` through this trait.

use vstd::prelude::*;

verus! {

use crate::errors::CodecError;

/// A source element that resolves to a character or a failure.
///
/// For `char` the resolution always succeeds; for
/// `Result<char, CodecError>` it is the value itself.
pub trait CharResult: Sized {
    /// The character or failure this element stands for.
    spec fn char_spec(self) -> Result<char, CodecError>;

    /// Resolves this element to a character or a failure.
    fn char_result(self) -> (r: Result<char, CodecError>)
        ensures
            r == self.char_spec(),
    ;
}

/// The character-or-failure elements a whole source stands for.
pub open spec fn char_elems_of<T: CharResult>(s: Seq<T>) -> Seq<Result<char, CodecError>> {
    s.map_values(|x: T| x.char_spec())
}

impl CharResult for char {
    open spec fn char_spec(self) -> Result<char, CodecError> {
        Ok(self)
    }

    fn char_result(self) -> (r: Result<char, CodecError>) {
        Ok(self)
    }
}

impl CharResult for Result<char, CodecError> {
    open spec fn char_spec(self) -> Result<char, CodecError> {
        self
    }

    fn char_result(self) -> (r: Result<char, CodecError>) {
        self
    }
}

} // verus!
