//! The Ascii85 decoding transducer.
//!
//! `Ascii85Decoding` consumes a finite source of character-or-failure
//! elements and produces, one per call, the decoded bytes: four bytes per
//! full 5-character group, four zero bytes for the `'z'` shorthand, and
//! `n - 1` bytes for a final partial group of `n` characters.  A source
//! failure, a character outside the printable window, or a misplaced
//! shorthand surfaces once, in place, and ends the stream.

use vstd::prelude::*;

verus! {

use crate::ascii85::arith::byte_seq;
use crate::ascii85::arith::char_digit;
use crate::ascii85::arith::is_digit_char;
use crate::ascii85::constants::CHAR_FOR_4_ZEROS;
use crate::ascii85::constants::CHARACTER_BLOCK_SIZE;
use crate::ascii85::constants::FIRST_CHAR;
use crate::ascii85::constants::LAST_CHAR;
use crate::char_result::char_elems_of;
use crate::char_result::CharResult;
use crate::errors::CodecError;

/// A sequence of bytes, each marked as successfully produced.
pub open spec fn ok_bytes(s: Seq<u8>) -> Seq<Result<u8, CodecError>> {
    s.map_values(|b: u8| Ok::<u8, CodecError>(b))
}

/// A source element that is a plain digit character of the printable
/// window.
pub open spec fn is_clean_digit(x: Result<char, CodecError>) -> bool {
    x is Ok && is_digit_char(x->Ok_0)
}

/// The digit values of the first `j` source elements.
pub open spec fn digit_prefix(src: Seq<Result<char, CodecError>>, j: int) -> Seq<int>
    recommends
        0 <= j <= src.len(),
{
    Seq::new(j as nat, |m: int| char_digit(src[m]->Ok_0))
}

/// Scans the current block from position `j` on: the digit values of the
/// remaining characters of the block, or the error the first offending
/// element yields.  The shorthand character is never a digit, so from
/// position 1 on it is misplaced; position 0 is handled by the caller.
pub open spec fn scan_block(src: Seq<Result<char, CodecError>>, j: int) -> Result<
    Seq<int>,
    CodecError,
>
    recommends
        0 <= j <= 5,
    decreases 5 - j,
        when 0 <= j <= 5
{
    if j >= 5 || j >= src.len() {
        Ok(Seq::empty())
    } else {
        match src[j] {
            Err(_) => Err(CodecError::UpstreamFailure),
            Ok(c) => if !is_digit_char(c) && c != CHAR_FOR_4_ZEROS {
                Err(CodecError::InvalidCharacter(c))
            } else if c == CHAR_FOR_4_ZEROS {
                Err(CodecError::MisplacedShorthand)
            } else {
                match scan_block(src, j + 1) {
                    Ok(rest) => Ok(seq![char_digit(c)] + rest),
                    Err(e) => Err(e),
                }
            },
        }
    }
}

/// The value of a block whose scanned digits are `ds`, the missing
/// positions of a final partial group padded with the maximum digit 84.
pub open spec fn padded_val(ds: Seq<int>) -> int
    recommends
        ds.len() <= 5,
{
    let p = ds + Seq::new((5 - ds.len()) as nat, |m: int| 84);
    p[0] * 52200625 + p[1] * 614125 + p[2] * 7225 + p[3] * 85 + p[4]
}

/// The complete output stream of the decoder on a source of
/// character-or-failure elements: four bytes per full group, four zero
/// bytes per leading shorthand, `n - 1` bytes for a final group of `n`
/// characters, cut short by the error of the first offending element.
pub open spec fn decode_stream(src: Seq<Result<char, CodecError>>) -> Seq<
    Result<u8, CodecError>,
>
    decreases src.len(),
{
    if src.len() == 0 {
        Seq::empty()
    } else if src[0] == Ok::<char, CodecError>(CHAR_FOR_4_ZEROS) {
        ok_bytes(seq![0u8, 0u8, 0u8, 0u8]) + decode_stream(src.skip(1))
    } else {
        match scan_block(src, 0) {
            Err(e) => seq![Err::<u8, CodecError>(e)],
            Ok(ds) => if src.len() >= 5 {
                ok_bytes(byte_seq(padded_val(ds) % 0x1_0000_0000)) + decode_stream(src.skip(5))
            } else {
                ok_bytes(byte_seq(padded_val(ds) % 0x1_0000_0000).take(src.len() - 1))
            },
        }
    }
}

/// Scanning from the start of a block runs through its clean digits: if
/// the first `j` elements are clean digits, the whole scan is those digit
/// values followed by whatever the scan from `j` yields.
pub proof fn lemma_scan_prefix(src: Seq<Result<char, CodecError>>, j: int)
    requires
        0 <= j <= 5,
        j <= src.len(),
        forall|m: int| 0 <= m < j ==> is_clean_digit(#[trigger] src[m]),
    ensures
        scan_block(src, 0) == match scan_block(src, j) {
            Ok(rest) => Ok::<Seq<int>, CodecError>(digit_prefix(src, j) + rest),
            Err(e) => Err::<Seq<int>, CodecError>(e),
        },
    decreases j,
{
    if j == 0 {
        match scan_block(src, 0) {
            Ok(rest) => {
                assert(digit_prefix(src, 0) + rest =~= rest);
            },
            Err(_) => {},
        }
    } else {
        lemma_scan_prefix(src, j - 1);
        let c = src[j - 1]->Ok_0;
        assert(is_clean_digit(src[j - 1]));
        assert(c as int <= 117 && CHAR_FOR_4_ZEROS as int == 122);
        match scan_block(src, j) {
            Ok(rest) => {
                assert(scan_block(src, j - 1) == Ok::<Seq<int>, CodecError>(
                    seq![char_digit(c)] + rest,
                ));
                assert(digit_prefix(src, j - 1) + (seq![char_digit(c)] + rest) =~= digit_prefix(
                    src,
                    j,
                ) + rest);
            },
            Err(e) => {
                assert(scan_block(src, j - 1) == Err::<Seq<int>, CodecError>(e));
            },
        }
    }
}

/// Streaming Ascii85 decoder.
///
/// The transducer owns its source and pulls from it one block at a time;
/// `next` produces one byte-or-failure element per call and `None` once
/// the stream is over.
pub struct Ascii85Decoding {
    /// Source to decode, normalized at the boundary.
    source: Vec<Result<char, CodecError>>,
    /// Cursor into the source.
    pos: usize,
    /// Bytes of the block in flight, not yet produced.
    pending: Vec<u8>,
    /// The block in flight is the final, partial one.
    last: bool,
    /// A failure was reported.
    failed: bool,
    /// The source was exhausted at a block boundary.
    done: bool,
}

impl Ascii85Decoding {
    /// The part of the source not yet consumed.
    pub closed spec fn src_rest(self) -> Seq<Result<char, CodecError>> {
        self.source@.skip(self.pos as int)
    }

    /// The cursor stays within the source.
    pub closed spec fn wf(self) -> bool {
        self.pos <= self.source@.len()
    }

    /// The stream of elements this decoder has yet to produce.
    pub closed spec fn outputs(self) -> Seq<Result<u8, CodecError>> {
        if self.failed || self.done {
            Seq::empty()
        } else {
            ok_bytes(self.pending@) + if self.last {
                Seq::empty()
            } else {
                decode_stream(self.src_rest())
            }
        }
    }

    /// Returns a new decoder over the given source, whose elements are
    /// normalized up front.
    pub fn new<T: CharResult>(source: Vec<T>) -> (r: Ascii85Decoding)
        ensures
            r.wf(),
            r.outputs() == decode_stream(char_elems_of(source@)),
    {
        let ghost orig = source@;
        let mut src = source;
        let mut normalized: Vec<Result<char, CodecError>> = Vec::new();
        while src.len() > 0
            invariant
                orig.len() == normalized@.len() + src@.len(),
                normalized@ == char_elems_of(orig.take(normalized@.len() as int)),
                src@ == orig.skip(normalized@.len() as int),
            decreases src@.len(),
        {
            let ghost k = normalized@.len() as int;
            let x = src.remove(0);
            normalized.push(x.char_result());
            proof {
                assert(orig.skip(k).remove(0) =~= orig.skip(k + 1));
                assert(normalized@ =~= char_elems_of(orig.take(k + 1)));
            }
        }
        let r = Ascii85Decoding {
            source: normalized,
            pos: 0,
            pending: Vec::new(),
            last: false,
            failed: false,
            done: false,
        };
        proof {
            assert(orig.take(orig.len() as int) =~= orig);
            assert(r.src_rest() =~= r.source@);
            assert(r.outputs() =~= decode_stream(char_elems_of(orig)));
        }
        r
    }

    /// The four bytes of a 32-bit block value, in production order.
    fn block_bytes(v: u32) -> (r: Vec<u8>)
        ensures
            r@ == byte_seq(v as int),
            r@.len() == 4,
    {
        let b0 = (v / 0x1000000) as u8;
        let r0 = v % 0x1000000;
        let b1 = (r0 / 0x10000) as u8;
        let r1 = r0 % 0x10000;
        let b2 = (r1 / 0x100) as u8;
        let b3 = (r1 % 0x100) as u8;
        let mut out: Vec<u8> = Vec::new();
        out.push(b0);
        out.push(b1);
        out.push(b2);
        out.push(b3);
        proof {
            assert(out@ =~= byte_seq(v as int));
        }
        out
    }

    /// Pulls and decodes one block: fills `pending` with the bytes the
    /// block produces, or records that the stream is over, or reports a
    /// failure.
    #[verifier::rlimit(60)]
    #[verifier::loop_isolation(false)]
    fn decode_block(&mut self) -> (r: Result<(), CodecError>)
        requires
            old(self).wf(),
            old(self).pending@.len() == 0,
            !old(self).last,
            !old(self).failed,
            !old(self).done,
        ensures
            final(self).wf(),
            match r {
                Result::Ok(_) => {
                    &&& final(self).outputs() == old(self).outputs()
                    &&& !final(self).failed
                    &&& (final(self).done <==> old(self).outputs().len() == 0)
                    &&& (!final(self).done ==> final(self).pending@.len() > 0)
                },
                Result::Err(e) => {
                    &&& old(self).outputs() == seq![Err::<u8, CodecError>(e)]
                    &&& final(self).outputs().len() == 0
                },
            },
    {
        let ghost src0 = self.src_rest();
        let ghost pos0 = self.pos as int;
        let mut digits: Vec<u8> = Vec::new();
        while digits.len() < CHARACTER_BLOCK_SIZE && self.pos < self.source.len()
            invariant
                self.source == old(self).source,
                self.pending == old(self).pending,
                !self.last && !self.failed && !self.done,
                digits@.len() <= 5,
                self.pos as int == pos0 + digits@.len(),
                self.pos <= self.source@.len(),
                0 <= pos0 <= self.source@.len(),
                src0 == self.source@.skip(pos0),
                forall|j: int|
                    0 <= j < digits@.len() ==> is_clean_digit(#[trigger] src0[j]) && digits@[j]
                        as int == char_digit(src0[j]->Ok_0),
            decreases CHARACTER_BLOCK_SIZE - digits@.len(),
        {
            let ghost i = digits@.len() as int;
            let elem = self.source[self.pos];
            self.pos = self.pos + 1;
            match elem {
                Err(_) => {
                    self.failed = true;
                    proof {
                        if i > 0 {
                            lemma_scan_prefix(src0, i);
                        }
                        assert(scan_block(src0, i) == Err::<Seq<int>, CodecError>(
                            CodecError::UpstreamFailure,
                        ));
                        assert(old(self).outputs() =~= seq![
                            Err::<u8, CodecError>(CodecError::UpstreamFailure),
                        ]);
                    }
                    return Err(CodecError::UpstreamFailure);
                },
                Ok(c) => {
                    if (c < FIRST_CHAR || c > LAST_CHAR) && c != CHAR_FOR_4_ZEROS {
                        // Outside the printable window and not the
                        // shorthand: the input is malformed here.
                        self.failed = true;
                        proof {
                            if i > 0 {
                                lemma_scan_prefix(src0, i);
                            }
                            assert(scan_block(src0, i) == Err::<Seq<int>, CodecError>(
                                CodecError::InvalidCharacter(c),
                            ));
                            assert(old(self).outputs() =~= seq![
                                Err::<u8, CodecError>(CodecError::InvalidCharacter(c)),
                            ]);
                        }
                        return Err(CodecError::InvalidCharacter(c));
                    }
                    if c == CHAR_FOR_4_ZEROS {
                        if digits.len() > 0 {
                            // The shorthand is valid only as the first
                            // character of a block.
                            self.failed = true;
                            proof {
                                lemma_scan_prefix(src0, i);
                                assert(scan_block(src0, i) == Err::<Seq<int>, CodecError>(
                                    CodecError::MisplacedShorthand,
                                ));
                                assert(old(self).outputs() =~= seq![
                                    Err::<u8, CodecError>(CodecError::MisplacedShorthand),
                                ]);
                            }
                            return Err(CodecError::MisplacedShorthand);
                        }
                        // Leading shorthand: four zero bytes, and the
                        // block consumes no further characters.
                        let mut zeros: Vec<u8> = Vec::new();
                        zeros.push(0);
                        zeros.push(0);
                        zeros.push(0);
                        zeros.push(0);
                        self.pending = zeros;
                        proof {
                            assert(self.source@.skip(pos0 + 1) =~= src0.skip(1));
                            assert(self.pending@ =~= seq![0u8, 0u8, 0u8, 0u8]);
                            assert(self.outputs() =~= old(self).outputs());
                        }
                        return Ok(());
                    }
                    let cv = c as u8;
                    proof {
                        assert(is_digit_char(c));
                        assert(src0[i] == Ok::<char, CodecError>(c));
                    }
                    digits.push(cv - 33);
                },
            }
        }
        let m = digits.len();
        if m == 0 {
            // The source was exhausted at a block boundary.
            self.done = true;
            proof {
                assert(src0.len() == 0);
                assert(old(self).outputs() =~= Seq::<Result<u8, CodecError>>::empty());
            }
            return Ok(());
        }
        // The value of the block: real digits first, the missing positions
        // of a final partial group padded with the maximum digit.
        let d0 = digits[0];
        let d1 = if m > 1 {
            digits[1]
        } else {
            84
        };
        let d2 = if m > 2 {
            digits[2]
        } else {
            84
        };
        let d3 = if m > 3 {
            digits[3]
        } else {
            84
        };
        let d4 = if m > 4 {
            digits[4]
        } else {
            84
        };
        let v: u64 = (d0 as u64) * 52200625 + (d1 as u64) * 614125 + (d2 as u64) * 7225 + (d3
            as u64) * 85 + (d4 as u64);
        let w = (v % 0x1_0000_0000) as u32;
        let bytes = Self::block_bytes(w);
        proof {
            lemma_scan_prefix(src0, m as int);
            assert(scan_block(src0, m as int) == Ok::<Seq<int>, CodecError>(Seq::empty()));
            assert(digit_prefix(src0, m as int) + Seq::empty() =~= digit_prefix(src0, m as int));
            assert(scan_block(src0, 0) == Ok::<Seq<int>, CodecError>(digit_prefix(src0, m as int)));
            assert(digit_prefix(src0, m as int) + Seq::new((5 - m) as nat, |j: int| 84) =~= seq![
                d0 as int,
                d1 as int,
                d2 as int,
                d3 as int,
                d4 as int,
            ]);
            assert(padded_val(digit_prefix(src0, m as int)) == v as int);
        }
        if m == CHARACTER_BLOCK_SIZE {
            // A full 5-character group: four bytes, stream goes on.
            self.pending = bytes;
            proof {
                assert(src0.len() >= 5);
                assert(self.source@.skip(pos0 + 5) =~= src0.skip(5));
                assert(self.outputs() =~= old(self).outputs());
            }
            return Ok(());
        }
        // The source was exhausted after m characters: a final group of m
        // characters yields its first m - 1 bytes.  A lone character that
        // is not the shorthand yields no byte at all.
        proof {
            assert(src0.len() == m);
        }
        if m == 1 {
            self.done = true;
            proof {
                assert(byte_seq(v as int % 0x1_0000_0000).take(0) =~= Seq::<u8>::empty());
                assert(old(self).outputs() =~= Seq::<Result<u8, CodecError>>::empty());
            }
            return Ok(());
        }
        let mut out = bytes;
        out.truncate(m - 1);
        self.pending = out;
        self.last = true;
        proof {
            assert(self.outputs() =~= old(self).outputs());
        }
        Ok(())
    }

    /// Produces the next decoded byte, a failure at the position where
    /// the input is malformed or the source failed, or `None` once the
    /// stream is over.
    pub fn next(&mut self) -> (r: Option<Result<u8, CodecError>>)
        requires
            old(self).wf(),
        ensures
            final(self).wf(),
            match r {
                Option::None => old(self).outputs().len() == 0 && final(self).outputs().len() == 0,
                Option::Some(x) => old(self).outputs().len() > 0 && x == old(self).outputs()[0]
                    && final(self).outputs() == old(self).outputs().skip(1),
            },
    {
        if self.failed || self.done {
            return None;
        }
        if self.pending.len() == 0 {
            if self.last {
                self.done = true;
                return None;
            }
            match self.decode_block() {
                Err(e) => {
                    return Some(Err(e));
                },
                Ok(_) => {
                    if self.done {
                        return None;
                    }
                },
            }
        }
        let ghost pre = *self;
        let b = self.pending.remove(0);
        proof {
            assert(pre.outputs()[0] == Ok::<u8, CodecError>(b));
            assert(self.outputs() =~= pre.outputs().skip(1));
        }
        Some(Ok(b))
    }
}

/// Extends character-or-failure sources with an adapter into the decoder.
pub trait Ascii85DecodingExtension: Sized {
    /// The normalized character-or-failure elements of this source.
    spec fn char_elems(self) -> Seq<Result<char, CodecError>>;

    /// Returns a new decoder that consumes this source.
    fn ascii85_decoding(self) -> (r: Ascii85Decoding)
        ensures
            r.wf(),
            r.outputs() == decode_stream(self.char_elems()),
    ;
}

impl<T: CharResult> Ascii85DecodingExtension for Vec<T> {
    open spec fn char_elems(self) -> Seq<Result<char, CodecError>> {
        char_elems_of(self@)
    }

    fn ascii85_decoding(self) -> (r: Ascii85Decoding) {
        Ascii85Decoding::new(self)
    }
}

} // verus!
