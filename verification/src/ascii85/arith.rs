//! Base-85 block arithmetic: the digits of a 32-bit group value, the bytes
//! of such a value, and the facts relating the two directions.

use vstd::prelude::*;

verus! {

use vstd::arithmetic::div_mod::lemma_fundamental_div_mod_converse_div;
use vstd::arithmetic::div_mod::lemma_fundamental_div_mod_converse_mod;

/// The 32-bit value of a 4-byte group, most-significant byte first.
pub open spec fn group_val(b: Seq<u8>) -> int
    recommends
        b.len() == 4,
{
    b[0] * 0x1000000 + b[1] * 0x10000 + b[2] * 0x100 + b[3]
}

/// The five base-85 digits of a group value, computed by successive
/// division by the positional weights 85^4, 85^3, 85^2 and 85.
pub open spec fn digit_seq(v: int) -> Seq<int>
    recommends
        0 <= v < 0x1_0000_0000,
{
    let d0 = v / 52200625;
    let r0 = v % 52200625;
    let d1 = r0 / 614125;
    let r1 = r0 % 614125;
    let d2 = r1 / 7225;
    let r2 = r1 % 7225;
    let d3 = r2 / 85;
    let d4 = r2 % 85;
    seq![d0, d1, d2, d3, d4]
}

/// The four bytes of a 32-bit value, most-significant first.
pub open spec fn byte_seq(v: int) -> Seq<u8>
    recommends
        0 <= v < 0x1_0000_0000,
{
    let b0 = v / 0x1000000;
    let r0 = v % 0x1000000;
    let b1 = r0 / 0x10000;
    let r1 = r0 % 0x10000;
    let b2 = r1 / 0x100;
    let b3 = r1 % 0x100;
    seq![b0 as u8, b1 as u8, b2 as u8, b3 as u8]
}

/// The printable character of a base-85 digit.
pub open spec fn digit_char(d: int) -> char
    recommends
        0 <= d < 85,
{
    ((d + 33) as u8) as char
}

/// A character of the printable window, representing a base-85 digit.
pub open spec fn is_digit_char(c: char) -> bool {
    33 <= c as int <= 117
}

/// The base-85 digit a printable character stands for.
pub open spec fn char_digit(c: char) -> int
    recommends
        is_digit_char(c),
{
    c as int - 33
}

/// A digit's printable character sits in the window and stands for the
/// digit itself; it is never the shorthand character.
pub proof fn lemma_digit_char_val(d: int)
    requires
        0 <= d < 85,
    ensures
        digit_char(d) as int == d + 33,
        is_digit_char(digit_char(d)),
        char_digit(digit_char(d)) == d,
        digit_char(d) != 'z',
{
}

/// The five digits of a group value lie below 85 and weigh back to the
/// value itself.
pub proof fn lemma_digit_seq(v: int)
    requires
        0 <= v < 0x1_0000_0000,
    ensures
        forall|i: int| 0 <= i < 5 ==> 0 <= #[trigger] digit_seq(v)[i] < 85,
        digit_seq(v)[0] * 52200625 + digit_seq(v)[1] * 614125 + digit_seq(v)[2] * 7225
            + digit_seq(v)[3] * 85 + digit_seq(v)[4] == v,
{
    let d = digit_seq(v);
    assert(d[0] == v / 52200625 && d[1] == (v % 52200625) / 614125 && d[2] == ((v % 52200625)
        % 614125) / 7225 && d[3] == (((v % 52200625) % 614125) % 7225) / 85 && d[4] == (((v
        % 52200625) % 614125) % 7225) % 85);
}

/// Splitting the value of a 4-byte group recovers exactly those bytes.
pub proof fn lemma_byte_seq_of_group(b: Seq<u8>)
    requires
        b.len() == 4,
    ensures
        byte_seq(group_val(b)) =~= b,
{
    let v = group_val(b);
    let r = b[1] * 0x10000 + b[2] * 0x100 + b[3];
    lemma_fundamental_div_mod_converse_div(v, 0x1000000, b[0] as int, r);
    lemma_fundamental_div_mod_converse_mod(v, 0x1000000, b[0] as int, r);
    let r1 = b[2] * 0x100 + b[3];
    lemma_fundamental_div_mod_converse_div(r, 0x10000, b[1] as int, r1);
    lemma_fundamental_div_mod_converse_mod(r, 0x10000, b[1] as int, r1);
    lemma_fundamental_div_mod_converse_div(r1, 0x100, b[2] as int, b[3] as int);
    lemma_fundamental_div_mod_converse_mod(r1, 0x100, b[2] as int, b[3] as int);
}

} // verus!
