//! Constants for the Ascii85 encoding.

use vstd::prelude::*;

verus! {

/// Bias (positional weight) of the first encoded character: 85^4.
pub const C1_BIAS: u32 = 52200625;

/// Bias (positional weight) of the second encoded character: 85^3.
pub const C2_BIAS: u32 = 614125;

/// Bias (positional weight) of the third encoded character: 85^2.
pub const C3_BIAS: u32 = 7225;

/// Bias (positional weight) of the fourth encoded character: 85^1.
pub const C4_BIAS: u32 = 85;

/// Number of characters in a full encoded block.
pub const CHARACTER_BLOCK_SIZE: usize = 5;

/// Number of bytes in a full binary block.
pub const BINARY_BLOCK_SIZE: usize = 4;

/// Additive offset mapping a base-85 digit to a printable character.
pub const BINARY_TO_CHAR_BIAS: u8 = 33;

/// The character standing for a complete all-zero 4-byte group.
pub const CHAR_FOR_4_ZEROS: char = 'z';

/// First character of the printable window (digit 0).
pub const FIRST_CHAR: char = '!';

/// Last character of the printable window (digit 84).
pub const LAST_CHAR: char = 'u';

} // verus!
