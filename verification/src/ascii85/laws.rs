//! Laws of the codec: the round trip, the shorthand, and how errors cut
//! the streams short.

use vstd::prelude::*;

verus! {

use vstd::arithmetic::div_mod::lemma_fundamental_div_mod_converse_div;
use vstd::arithmetic::div_mod::lemma_fundamental_div_mod_converse_mod;
use crate::ascii85::arith::group_val;
use crate::ascii85::arith::lemma_digit_char_val;
use crate::ascii85::arith::lemma_digit_seq;
use crate::ascii85::arith::lemma_byte_seq_of_group;
use crate::ascii85::arith::digit_seq;
use crate::ascii85::arith::digit_char;
use crate::ascii85::arith::char_digit;
use crate::ascii85::arith::is_digit_char;
use crate::ascii85::arith::byte_seq;
use crate::ascii85::encoding::block_has_failure;
use crate::ascii85::encoding::byte_vals;
use crate::ascii85::encoding::encode_bytes;
use crate::ascii85::encoding::encode_group;
use crate::ascii85::encoding::encode_partial;
use crate::ascii85::encoding::encode_stream;
use crate::ascii85::encoding::group_chars;
use crate::ascii85::encoding::ok_chars;
use crate::ascii85::encoding::pad4;
use crate::ascii85::decoding::decode_stream;
use crate::ascii85::decoding::digit_prefix;
use crate::ascii85::decoding::is_clean_digit;
use crate::ascii85::decoding::lemma_scan_prefix;
use crate::ascii85::decoding::ok_bytes;
use crate::ascii85::decoding::padded_val;
use crate::ascii85::decoding::scan_block;
use crate::errors::CodecError;

/// Encoding distributes over a split at a group boundary.
pub proof fn lemma_encode_bytes_append(p: Seq<u8>, q: Seq<u8>)
    requires
        p.len() % 4 == 0,
    ensures
        encode_bytes(p + q) == encode_bytes(p) + encode_bytes(q),
    decreases p.len(),
{
    if p.len() == 0 {
        assert(p + q =~= q);
        assert(encode_bytes(p) + encode_bytes(q) =~= encode_bytes(q));
    } else {
        assert(p.len() >= 4);
        assert((p + q).take(4) =~= p.take(4));
        assert((p + q).skip(4) =~= p.skip(4) + q);
        lemma_encode_bytes_append(p.skip(4), q);
        assert(encode_group(p.take(4)) + (encode_bytes(p.skip(4)) + encode_bytes(q))
            =~= encode_bytes(p) + encode_bytes(q));
    }
}

/// On a source of plain bytes the encoder's stream is exactly the encoded
/// text, every element produced successfully.
pub proof fn lemma_encode_stream_plain(s: Seq<u8>)
    ensures
        encode_stream(ok_bytes(s)) == ok_chars(encode_bytes(s)),
    decreases s.len(),
{
    let src = ok_bytes(s);
    assert(forall|j: int| 0 <= j < s.len() ==> src[j] == Ok::<u8, CodecError>(s[j]));
    if s.len() == 0 {
        assert(encode_stream(src) =~= ok_chars(encode_bytes(s)));
    } else if s.len() >= 4 {
        assert(!block_has_failure(src));
        assert(byte_vals(src.take(4)) =~= s.take(4));
        assert(src.skip(4) =~= ok_bytes(s.skip(4)));
        lemma_encode_stream_plain(s.skip(4));
        assert(encode_stream(src) =~= ok_chars(encode_bytes(s)));
    } else {
        assert(!block_has_failure(src));
        assert(byte_vals(src) =~= s);
        assert(encode_stream(src) =~= ok_chars(encode_bytes(s)));
    }
}

/// A run of complete, successfully supplied groups passes through the
/// encoder untouched by whatever follows it.
pub proof fn lemma_encode_stream_groups(s: Seq<u8>, rest: Seq<Result<u8, CodecError>>)
    requires
        s.len() % 4 == 0,
    ensures
        encode_stream(ok_bytes(s) + rest) == ok_chars(encode_bytes(s)) + encode_stream(rest),
    decreases s.len(),
{
    let src = ok_bytes(s) + rest;
    if s.len() == 0 {
        assert(src =~= rest);
        assert(ok_chars(encode_bytes(s)) + encode_stream(rest) =~= encode_stream(rest));
    } else {
        assert(s.len() >= 4);
        assert(forall|j: int| 0 <= j < 4 ==> src[j] == Ok::<u8, CodecError>(s[j]));
        assert(!block_has_failure(src));
        assert(byte_vals(src.take(4)) =~= s.take(4));
        assert(src.skip(4) =~= ok_bytes(s.skip(4)) + rest);
        lemma_encode_stream_groups(s.skip(4), rest);
        assert(encode_stream(src) =~= ok_chars(encode_bytes(s)) + encode_stream(rest));
    }
}

/// Encoding a complete all-zero group emits exactly the single shorthand
/// character, independent of the groups around it.
pub proof fn lemma_encode_zero_group(p: Seq<u8>, rest: Seq<u8>)
    requires
        p.len() % 4 == 0,
    ensures
        encode_bytes(p + seq![0u8, 0u8, 0u8, 0u8] + rest) == encode_bytes(p) + seq!['z']
            + encode_bytes(rest),
{
    let z4 = seq![0u8, 0u8, 0u8, 0u8];
    assert(p + z4 + rest =~= p + (z4 + rest));
    lemma_encode_bytes_append(p, z4 + rest);
    lemma_encode_bytes_append(z4, rest);
    assert(z4.take(4) =~= z4);
    assert(z4.skip(4) =~= Seq::<u8>::empty());
    assert(group_val(z4) == 0);
    assert(encode_bytes(Seq::<u8>::empty()) =~= Seq::<char>::empty());
    assert(encode_group(z4) =~= seq!['z']);
    assert(encode_bytes(z4) == encode_group(z4.take(4)) + encode_bytes(z4.skip(4)));
    assert(encode_bytes(z4) =~= seq!['z']);
    assert(encode_bytes(z4 + rest) =~= seq!['z'] + encode_bytes(rest));
    assert(encode_bytes(p) + (seq!['z'] + encode_bytes(rest)) =~= encode_bytes(p) + seq!['z']
        + encode_bytes(rest));
}

/// A failing source element surfaces as a single `UpstreamFailure` right
/// after the characters of the complete groups before it, and ends the
/// encoded stream.
pub proof fn lemma_encode_upstream_failure(
    s: Seq<u8>,
    d: Seq<u8>,
    e: CodecError,
    rest: Seq<Result<u8, CodecError>>,
)
    requires
        s.len() % 4 == 0,
        d.len() <= 3,
    ensures
        encode_stream(ok_bytes(s) + ok_bytes(d) + seq![Err::<u8, CodecError>(e)] + rest)
            == ok_chars(encode_bytes(s)) + seq![Err::<char, CodecError>(
            CodecError::UpstreamFailure,
        )],
{
    let tail = ok_bytes(d) + seq![Err::<u8, CodecError>(e)] + rest;
    assert(ok_bytes(s) + ok_bytes(d) + seq![Err::<u8, CodecError>(e)] + rest =~= ok_bytes(s)
        + tail);
    lemma_encode_stream_groups(s, tail);
    let j = d.len() as int;
    assert(tail[j] == Err::<u8, CodecError>(e));
    assert(tail[j] is Err);
    assert(block_has_failure(tail));
    assert(encode_stream(tail) =~= seq![Err::<char, CodecError>(CodecError::UpstreamFailure)]);
}

/// Decoding the shorthand character always yields exactly four zero
/// bytes, independent of the groups around it.
pub proof fn lemma_decode_shorthand(rest: Seq<Result<char, CodecError>>)
    ensures
        decode_stream(seq![Ok::<char, CodecError>('z')] + rest) == ok_bytes(
            seq![0u8, 0u8, 0u8, 0u8],
        ) + decode_stream(rest),
{
    let src = seq![Ok::<char, CodecError>('z')] + rest;
    assert(src[0] == Ok::<char, CodecError>('z'));
    assert(src.skip(1) =~= rest);
}

/// Decoding undoes encoding for one complete group, whatever follows it.
pub proof fn lemma_decode_encode_group(b: Seq<u8>, rest: Seq<Result<char, CodecError>>)
    requires
        b.len() == 4,
    ensures
        decode_stream(ok_chars(encode_group(b)) + rest) == ok_bytes(b) + decode_stream(rest),
{
    let v = group_val(b);
    if v == 0 {
        assert(b[0] == 0 && b[1] == 0 && b[2] == 0 && b[3] == 0);
        let src = ok_chars(seq!['z']) + rest;
        assert(src[0] == Ok::<char, CodecError>('z'));
        assert(src.skip(1) =~= rest);
        assert(seq![0u8, 0u8, 0u8, 0u8] =~= b);
        assert(decode_stream(src) =~= ok_bytes(b) + decode_stream(rest));
    } else {
        lemma_digit_seq(v);
        let ds = digit_seq(v);
        let src = ok_chars(group_chars(v)) + rest;
        assert(forall|m: int| 0 <= m < 5 ==> src[m] == Ok::<char, CodecError>(digit_char(ds[m])));
        assert forall|m: int| 0 <= m < 5 implies is_clean_digit(#[trigger] src[m]) && char_digit(
            src[m]->Ok_0,
        ) == ds[m] && src[m] != Ok::<char, CodecError>('z') by {
            lemma_digit_char_val(ds[m]);
        }
        lemma_scan_prefix(src, 5);
        assert(scan_block(src, 5) == Ok::<Seq<int>, CodecError>(Seq::empty()));
        assert(digit_prefix(src, 5) + Seq::<int>::empty() =~= digit_prefix(src, 5));
        assert(digit_prefix(src, 5) =~= ds);
        assert(scan_block(src, 0) == Ok::<Seq<int>, CodecError>(ds));
        assert(ds + Seq::new(0nat, |m: int| 84) =~= ds);
        assert(padded_val(ds) == v);
        assert(v % 0x1_0000_0000 == v);
        lemma_byte_seq_of_group(b);
        assert(src.skip(5) =~= rest);
        assert(decode_stream(src) =~= ok_bytes(b) + decode_stream(rest));
    }
}

/// Decoding undoes encoding for the final partial group: the characters
/// of an `n`-byte group decode to exactly those `n` bytes, the positions
/// missing on decode being padded with the maximum digit.
#[verifier::rlimit(100)]
pub proof fn lemma_decode_encode_partial(b: Seq<u8>)
    requires
        1 <= b.len() <= 3,
    ensures
        decode_stream(ok_chars(encode_partial(b))) == ok_bytes(b),
{
    let n = b.len() as int;
    let pb = pad4(b);
    let v = group_val(pb);
    lemma_digit_seq(v);
    let ds = digit_seq(v);
    let src = ok_chars(group_chars(v).take(n + 1));
    assert(forall|m: int|
        0 <= m < n + 1 ==> src[m] == Ok::<char, CodecError>(digit_char(ds[m])));
    assert forall|m: int| 0 <= m < n + 1 implies is_clean_digit(#[trigger] src[m]) && char_digit(
        src[m]->Ok_0,
    ) == ds[m] && src[m] != Ok::<char, CodecError>('z') by {
        lemma_digit_char_val(ds[m]);
    }
    assert(src.len() == n + 1);
    lemma_scan_prefix(src, n + 1);
    assert(scan_block(src, n + 1) == Ok::<Seq<int>, CodecError>(Seq::empty()));
    assert(digit_prefix(src, n + 1) + Seq::<int>::empty() =~= digit_prefix(src, n + 1));
    let dsp = digit_prefix(src, n + 1);
    assert(scan_block(src, 0) == Ok::<Seq<int>, CodecError>(dsp));
    assert(forall|m: int| 0 <= m < n + 1 ==> dsp[m] == ds[m]);
    let p = dsp + Seq::new((5 - (n + 1)) as nat, |m: int| 84);
    assert(p.len() == 5);
    assert(forall|m: int| 0 <= m < n + 1 ==> p[m] == ds[m]);
    assert(forall|m: int| n + 1 <= m < 5 ==> p[m] == 84);
    let w = padded_val(dsp);
    if n == 1 {
        assert(pb =~= seq![b[0], 0u8, 0u8, 0u8]);
        let delta = (84 - ds[2]) * 7225 + (84 - ds[3]) * 85 + (84 - ds[4]);
        assert(w == v + delta);
        assert(0 <= delta < 0x1000000);
        assert(w == b[0] * 0x1000000 + delta);
        lemma_fundamental_div_mod_converse_div(w, 0x1000000, b[0] as int, delta);
        lemma_fundamental_div_mod_converse_mod(w, 0x1000000, b[0] as int, delta);
        assert(w % 0x1_0000_0000 == w);
        assert(byte_seq(w)[0] == b[0]);
        assert(byte_seq(w % 0x1_0000_0000).take(n) =~= b);
    } else if n == 2 {
        assert(pb =~= seq![b[0], b[1], 0u8, 0u8]);
        let delta = (84 - ds[3]) * 85 + (84 - ds[4]);
        assert(w == v + delta);
        assert(0 <= delta < 0x10000);
        let r1 = b[1] * 0x10000 + delta;
        assert(w == b[0] * 0x1000000 + r1);
        assert(0 <= r1 < 0x1000000);
        lemma_fundamental_div_mod_converse_div(w, 0x1000000, b[0] as int, r1);
        lemma_fundamental_div_mod_converse_mod(w, 0x1000000, b[0] as int, r1);
        lemma_fundamental_div_mod_converse_div(r1, 0x10000, b[1] as int, delta);
        lemma_fundamental_div_mod_converse_mod(r1, 0x10000, b[1] as int, delta);
        assert(w % 0x1_0000_0000 == w);
        assert(byte_seq(w)[0] == b[0] && byte_seq(w)[1] == b[1]);
        assert(byte_seq(w % 0x1_0000_0000).take(n) =~= b);
    } else {
        assert(pb =~= seq![b[0], b[1], b[2], 0u8]);
        let delta = 84 - ds[4];
        assert(w == v + delta);
        assert(0 <= delta < 0x100);
        let r1 = b[1] * 0x10000 + b[2] * 0x100 + delta;
        let r2 = b[2] * 0x100 + delta;
        assert(w == b[0] * 0x1000000 + r1);
        assert(0 <= r1 < 0x1000000);
        lemma_fundamental_div_mod_converse_div(w, 0x1000000, b[0] as int, r1);
        lemma_fundamental_div_mod_converse_mod(w, 0x1000000, b[0] as int, r1);
        lemma_fundamental_div_mod_converse_div(r1, 0x10000, b[1] as int, r2);
        lemma_fundamental_div_mod_converse_mod(r1, 0x10000, b[1] as int, r2);
        lemma_fundamental_div_mod_converse_div(r2, 0x100, b[2] as int, delta);
        lemma_fundamental_div_mod_converse_mod(r2, 0x100, b[2] as int, delta);
        assert(w % 0x1_0000_0000 == w);
        assert(byte_seq(w)[0] == b[0] && byte_seq(w)[1] == b[1] && byte_seq(w)[2] == b[2]);
        assert(byte_seq(w % 0x1_0000_0000).take(n) =~= b);
    }
    assert(decode_stream(src) =~= ok_bytes(b));
}

/// A run of complete encoded groups decodes to its own bytes, untouched
/// by whatever follows it.
pub proof fn lemma_decode_encoded_groups(s: Seq<u8>, rest: Seq<Result<char, CodecError>>)
    requires
        s.len() % 4 == 0,
    ensures
        decode_stream(ok_chars(encode_bytes(s)) + rest) == ok_bytes(s) + decode_stream(rest),
    decreases s.len(),
{
    if s.len() == 0 {
        assert(ok_chars(encode_bytes(s)) + rest =~= rest);
        assert(ok_bytes(s) + decode_stream(rest) =~= decode_stream(rest));
    } else {
        assert(s.len() >= 4);
        let g = s.take(4);
        let tail_rest = ok_chars(encode_bytes(s.skip(4))) + rest;
        assert(ok_chars(encode_bytes(s)) + rest =~= ok_chars(encode_group(g)) + tail_rest);
        lemma_decode_encode_group(g, tail_rest);
        lemma_decode_encoded_groups(s.skip(4), rest);
        assert(ok_bytes(g) + (ok_bytes(s.skip(4)) + decode_stream(rest)) =~= ok_bytes(s)
            + decode_stream(rest));
    }
}

/// The round trip: decoding the encoded text of any byte sequence yields
/// exactly that sequence, every element produced successfully.
pub proof fn lemma_round_trip(s: Seq<u8>)
    ensures
        decode_stream(ok_chars(encode_bytes(s))) == ok_bytes(s),
{
    let k = s.len() as int - s.len() as int % 4;
    let p = s.take(k);
    let t = s.skip(k);
    assert(p.len() % 4 == 0);
    assert(p + t =~= s);
    lemma_encode_bytes_append(p, t);
    assert(encode_bytes(s) == encode_bytes(p) + encode_bytes(t));
    assert(ok_chars(encode_bytes(p) + encode_bytes(t)) =~= ok_chars(encode_bytes(p)) + ok_chars(
        encode_bytes(t),
    ));
    lemma_decode_encoded_groups(p, ok_chars(encode_bytes(t)));
    if t.len() == 0 {
        assert(ok_chars(encode_bytes(t)) =~= Seq::<Result<char, CodecError>>::empty());
        assert(decode_stream(ok_chars(encode_bytes(t))) =~= ok_bytes(t));
    } else {
        lemma_decode_encode_partial(t);
        assert(decode_stream(ok_chars(encode_bytes(t))) == ok_bytes(t));
    }
    assert(ok_bytes(p) + ok_bytes(t) =~= ok_bytes(s));
}

/// A character outside the printable window that is not the shorthand
/// surfaces as a single `InvalidCharacter` right after the bytes of the
/// complete groups before it, and ends the decoded stream.
pub proof fn lemma_decode_invalid_character(
    s: Seq<u8>,
    d: Seq<char>,
    c: char,
    rest: Seq<Result<char, CodecError>>,
)
    requires
        s.len() % 4 == 0,
        d.len() <= 4,
        forall|m: int| 0 <= m < d.len() ==> is_digit_char(#[trigger] d[m]),
        !is_digit_char(c),
        c != 'z',
    ensures
        decode_stream(ok_chars(encode_bytes(s)) + ok_chars(d) + seq![Ok::<char, CodecError>(c)]
            + rest) == ok_bytes(s) + seq![Err::<u8, CodecError>(CodecError::InvalidCharacter(c))],
{
    let tail = ok_chars(d) + seq![Ok::<char, CodecError>(c)] + rest;
    assert(ok_chars(encode_bytes(s)) + ok_chars(d) + seq![Ok::<char, CodecError>(c)] + rest
        =~= ok_chars(encode_bytes(s)) + tail);
    lemma_decode_encoded_groups(s, tail);
    let j = d.len() as int;
    assert(forall|m: int| 0 <= m < j ==> tail[m] == Ok::<char, CodecError>(d[m]));
    assert(forall|m: int| 0 <= m < j ==> is_clean_digit(#[trigger] tail[m]));
    assert(tail[j] == Ok::<char, CodecError>(c));
    lemma_scan_prefix(tail, j);
    assert(scan_block(tail, j) == Err::<Seq<int>, CodecError>(CodecError::InvalidCharacter(c)));
    if j > 0 {
        assert(d[0] as int <= 117 && 'z' as int == 122);
        assert(tail[0] != Ok::<char, CodecError>('z'));
    }
    assert(decode_stream(tail) =~= seq![
        Err::<u8, CodecError>(CodecError::InvalidCharacter(c)),
    ]);
}

/// The shorthand character at any position of a block other than the
/// first surfaces as a single `MisplacedShorthand` right after the bytes
/// of the complete groups before it, and ends the decoded stream.
pub proof fn lemma_decode_misplaced_shorthand(
    s: Seq<u8>,
    d: Seq<char>,
    rest: Seq<Result<char, CodecError>>,
)
    requires
        s.len() % 4 == 0,
        1 <= d.len() <= 4,
        forall|m: int| 0 <= m < d.len() ==> is_digit_char(#[trigger] d[m]),
    ensures
        decode_stream(ok_chars(encode_bytes(s)) + ok_chars(d) + seq![Ok::<char, CodecError>('z')]
            + rest) == ok_bytes(s) + seq![Err::<u8, CodecError>(CodecError::MisplacedShorthand)],
{
    let tail = ok_chars(d) + seq![Ok::<char, CodecError>('z')] + rest;
    assert(ok_chars(encode_bytes(s)) + ok_chars(d) + seq![Ok::<char, CodecError>('z')] + rest
        =~= ok_chars(encode_bytes(s)) + tail);
    lemma_decode_encoded_groups(s, tail);
    let j = d.len() as int;
    assert(forall|m: int| 0 <= m < j ==> tail[m] == Ok::<char, CodecError>(d[m]));
    assert(forall|m: int| 0 <= m < j ==> is_clean_digit(#[trigger] tail[m]));
    assert(tail[j] == Ok::<char, CodecError>('z'));
    lemma_scan_prefix(tail, j);
    assert(scan_block(tail, j) == Err::<Seq<int>, CodecError>(CodecError::MisplacedShorthand));
    assert(d[0] as int <= 117 && 'z' as int == 122);
    assert(tail[0] != Ok::<char, CodecError>('z'));
    assert(decode_stream(tail) =~= seq![
        Err::<u8, CodecError>(CodecError::MisplacedShorthand),
    ]);
}

/// A failing source element surfaces as a single `UpstreamFailure` right
/// after the bytes of the complete groups before it, and ends the decoded
/// stream.
pub proof fn lemma_decode_upstream_failure(
    s: Seq<u8>,
    d: Seq<char>,
    e: CodecError,
    rest: Seq<Result<char, CodecError>>,
)
    requires
        s.len() % 4 == 0,
        d.len() <= 4,
        forall|m: int| 0 <= m < d.len() ==> is_digit_char(#[trigger] d[m]),
    ensures
        decode_stream(ok_chars(encode_bytes(s)) + ok_chars(d) + seq![Err::<char, CodecError>(e)]
            + rest) == ok_bytes(s) + seq![Err::<u8, CodecError>(CodecError::UpstreamFailure)],
{
    let tail = ok_chars(d) + seq![Err::<char, CodecError>(e)] + rest;
    assert(ok_chars(encode_bytes(s)) + ok_chars(d) + seq![Err::<char, CodecError>(e)] + rest
        =~= ok_chars(encode_bytes(s)) + tail);
    lemma_decode_encoded_groups(s, tail);
    let j = d.len() as int;
    assert(forall|m: int| 0 <= m < j ==> tail[m] == Ok::<char, CodecError>(d[m]));
    assert(forall|m: int| 0 <= m < j ==> is_clean_digit(#[trigger] tail[m]));
    assert(tail[j] == Err::<char, CodecError>(e));
    lemma_scan_prefix(tail, j);
    assert(scan_block(tail, j) == Err::<Seq<int>, CodecError>(CodecError::UpstreamFailure));
    if j > 0 {
        assert(d[0] as int <= 117 && 'z' as int == 122);
        assert(tail[0] != Ok::<char, CodecError>('z'));
    }
    assert(decode_stream(tail) =~= seq![
        Err::<u8, CodecError>(CodecError::UpstreamFailure),
    ]);
}

} // verus!
