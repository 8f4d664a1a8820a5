//! Errors that a codec stream can surface.

use vstd::prelude::*;

verus! {

/// A failure surfaced as an element of an encoded or decoded stream.
///
/// All variants are local, stream-data errors: they are delivered at the
/// position where they occur, and elements delivered earlier stay valid.
#[derive(Clone, Copy, Debug, PartialEq, Eq)]
pub enum CodecError {
    /// The source sequence itself yielded a failure.
    UpstreamFailure,
    /// A pulled character lies outside `['!', 'u']` and is not the
    /// shorthand character (decoding only).
    InvalidCharacter(char),
    /// The shorthand character appeared at a position other than the first
    /// of its block (decoding only).
    MisplacedShorthand,
}

} // verus!
