//! The Ascii85 encoding transducer.
//!
//! `Ascii85Encoding` consumes a finite source of byte-or-failure elements
//! and produces, one per call, the characters of the Ascii85 text: five
//! characters per full 4-byte group, the single `'z'` shorthand for a full
//! all-zero group, and `n + 1` characters for a final partial group of `n`
//! bytes.  A source failure surfaces once, in place, and ends the stream.

use vstd::prelude::*;

verus! {

use crate::ascii85::arith::digit_char;
use crate::ascii85::arith::digit_seq;
use crate::ascii85::arith::group_val;
use crate::ascii85::arith::lemma_digit_seq;
use crate::ascii85::constants::BINARY_BLOCK_SIZE;
use crate::ascii85::constants::BINARY_TO_CHAR_BIAS;
use crate::ascii85::constants::C1_BIAS;
use crate::ascii85::constants::C2_BIAS;
use crate::ascii85::constants::C3_BIAS;
use crate::ascii85::constants::C4_BIAS;
use crate::ascii85::constants::CHAR_FOR_4_ZEROS;
use crate::byte_result::byte_elems_of;
use crate::byte_result::ByteResult;
use crate::errors::CodecError;

/// A sequence of characters, each marked as successfully produced.
pub open spec fn ok_chars(s: Seq<char>) -> Seq<Result<char, CodecError>> {
    s.map_values(|c: char| Ok::<char, CodecError>(c))
}

/// The byte values of a sequence of elements none of which is a failure.
pub open spec fn byte_vals(src: Seq<Result<u8, CodecError>>) -> Seq<u8> {
    src.map_values(|x: Result<u8, CodecError>| x->Ok_0)
}

/// Whether the block starting the source contains a failure element.
pub open spec fn block_has_failure(src: Seq<Result<u8, CodecError>>) -> bool {
    exists|j: int| 0 <= j < 4 && j < src.len() && src[j] is Err
}

/// A partial final group padded with zero bytes to a full group.
pub open spec fn pad4(b: Seq<u8>) -> Seq<u8>
    recommends
        b.len() <= 4,
{
    b + Seq::new((4 - b.len()) as nat, |i: int| 0u8)
}

/// The five digit characters of a group value.
pub open spec fn group_chars(v: int) -> Seq<char>
    recommends
        0 <= v < 0x1_0000_0000,
{
    digit_seq(v).map_values(|d: int| digit_char(d))
}

/// The characters of a full 4-byte group: the `'z'` shorthand when the
/// group is all zero, its five digit characters otherwise.
pub open spec fn encode_group(b: Seq<u8>) -> Seq<char>
    recommends
        b.len() == 4,
{
    if group_val(b) == 0 {
        seq!['z']
    } else {
        group_chars(group_val(b))
    }
}

/// The characters of a final partial group of 1 to 3 bytes: the group is
/// padded with zero bytes, and only the first `n + 1` digit characters are
/// emitted.  The shorthand never applies to a partial group.
pub open spec fn encode_partial(b: Seq<u8>) -> Seq<char>
    recommends
        1 <= b.len() <= 3,
{
    group_chars(group_val(pad4(b))).take(b.len() as int + 1)
}

/// The Ascii85 text of a whole byte sequence, group by group.
pub open spec fn encode_bytes(s: Seq<u8>) -> Seq<char>
    decreases s.len(),
{
    if s.len() == 0 {
        Seq::empty()
    } else if s.len() >= 4 {
        encode_group(s.take(4)) + encode_bytes(s.skip(4))
    } else {
        encode_partial(s)
    }
}

/// The complete output stream of the encoder on a source of
/// byte-or-failure elements: the characters of each group in turn, cut
/// short by a single `UpstreamFailure` at the first failing element.
pub open spec fn encode_stream(src: Seq<Result<u8, CodecError>>) -> Seq<
    Result<char, CodecError>,
>
    decreases src.len(),
{
    if src.len() == 0 {
        Seq::empty()
    } else if block_has_failure(src) {
        seq![Err::<char, CodecError>(CodecError::UpstreamFailure)]
    } else if src.len() >= 4 {
        ok_chars(encode_group(byte_vals(src.take(4)))) + encode_stream(src.skip(4))
    } else {
        ok_chars(encode_partial(byte_vals(src)))
    }
}

/// Streaming Ascii85 encoder.
///
/// The transducer owns its source and pulls from it one block at a time;
/// `next` produces one character-or-failure element per call and `None`
/// once the stream is over.
pub struct Ascii85Encoding {
    /// Source to encode, normalized at the boundary.
    source: Vec<Result<u8, CodecError>>,
    /// Cursor into the source.
    pos: usize,
    /// Characters of the block in flight, not yet produced.
    pending: Vec<char>,
    /// The block in flight is the final, partial one.
    last: bool,
    /// A source failure was reported.
    failed: bool,
    /// The source was exhausted at a block boundary.
    done: bool,
}

impl Ascii85Encoding {
    /// The part of the source not yet consumed.
    pub closed spec fn src_rest(self) -> Seq<Result<u8, CodecError>> {
        self.source@.skip(self.pos as int)
    }

    /// The cursor stays within the source.
    pub closed spec fn wf(self) -> bool {
        self.pos <= self.source@.len()
    }

    /// The stream of elements this encoder has yet to produce.
    pub closed spec fn outputs(self) -> Seq<Result<char, CodecError>> {
        if self.failed || self.done {
            Seq::empty()
        } else {
            ok_chars(self.pending@) + if self.last {
                Seq::empty()
            } else {
                encode_stream(self.src_rest())
            }
        }
    }

    /// Returns a new encoder over the given source, whose elements are
    /// normalized up front.
    pub fn new<T: ByteResult>(source: Vec<T>) -> (r: Ascii85Encoding)
        ensures
            r.wf(),
            r.outputs() == encode_stream(byte_elems_of(source@)),
    {
        let ghost orig = source@;
        let mut src = source;
        let mut normalized: Vec<Result<u8, CodecError>> = Vec::new();
        while src.len() > 0
            invariant
                orig.len() == normalized@.len() + src@.len(),
                normalized@ == byte_elems_of(orig.take(normalized@.len() as int)),
                src@ == orig.skip(normalized@.len() as int),
            decreases src@.len(),
        {
            let ghost k = normalized@.len() as int;
            let x = src.remove(0);
            normalized.push(x.byte_result());
            proof {
                assert(orig.skip(k).remove(0) =~= orig.skip(k + 1));
                assert(normalized@ =~= byte_elems_of(orig.take(k + 1)));
            }
        }
        let r = Ascii85Encoding {
            source: normalized,
            pos: 0,
            pending: Vec::new(),
            last: false,
            failed: false,
            done: false,
        };
        proof {
            assert(orig.take(orig.len() as int) =~= orig);
            assert(r.src_rest() =~= r.source@);
            assert(r.outputs() =~= encode_stream(byte_elems_of(orig)));
        }
        r
    }

    /// The five digit characters of a group value, in production order.
    fn block_chars(v: u32) -> (r: Vec<char>)
        ensures
            r@ == group_chars(v as int),
            r@.len() == 5,
    {
        proof {
            lemma_digit_seq(v as int);
        }
        let c1 = v / C1_BIAS;
        let r0 = v % C1_BIAS;
        let c2 = r0 / C2_BIAS;
        let r1 = r0 % C2_BIAS;
        let c3 = r1 / C3_BIAS;
        let r2 = r1 % C3_BIAS;
        let c4 = r2 / C4_BIAS;
        let c5 = r2 % C4_BIAS;
        let mut out: Vec<char> = Vec::new();
        out.push((c1 as u8 + BINARY_TO_CHAR_BIAS) as char);
        out.push((c2 as u8 + BINARY_TO_CHAR_BIAS) as char);
        out.push((c3 as u8 + BINARY_TO_CHAR_BIAS) as char);
        out.push((c4 as u8 + BINARY_TO_CHAR_BIAS) as char);
        out.push((c5 as u8 + BINARY_TO_CHAR_BIAS) as char);
        proof {
            assert(out@ =~= group_chars(v as int));
        }
        out
    }

    /// Pulls and encodes one block: fills `pending` with the characters
    /// the block produces, or records that the stream is over, or reports
    /// a source failure.
    #[verifier::rlimit(60)]
    #[verifier::loop_isolation(false)]
    fn encode_block(&mut self) -> (r: Result<(), CodecError>)
        requires
            old(self).wf(),
            old(self).pending@.len() == 0,
            !old(self).last,
            !old(self).failed,
            !old(self).done,
        ensures
            final(self).wf(),
            match r {
                Result::Ok(_) => {
                    &&& final(self).outputs() == old(self).outputs()
                    &&& !final(self).failed
                    &&& (final(self).done <==> old(self).outputs().len() == 0)
                    &&& (!final(self).done ==> final(self).pending@.len() > 0)
                },
                Result::Err(e) => {
                    &&& old(self).outputs() == seq![Err::<char, CodecError>(e)]
                    &&& final(self).outputs().len() == 0
                },
            },
    {
        let ghost src0 = self.src_rest();
        let ghost pos0 = self.pos as int;
        let mut vals: Vec<u8> = Vec::new();
        while vals.len() < BINARY_BLOCK_SIZE && self.pos < self.source.len()
            invariant
                self.source == old(self).source,
                self.pending == old(self).pending,
                !self.last && !self.failed && !self.done,
                vals@.len() <= 4,
                self.pos as int == pos0 + vals@.len(),
                self.pos <= self.source@.len(),
                0 <= pos0 <= self.source@.len(),
                src0 == self.source@.skip(pos0),
                forall|j: int| 0 <= j < vals@.len() ==> src0[j] == Ok::<u8, CodecError>(vals@[j]),
            decreases BINARY_BLOCK_SIZE - vals@.len(),
        {
            let ghost i = vals@.len() as int;
            let elem = self.source[self.pos];
            self.pos = self.pos + 1;
            match elem {
                Ok(b) => {
                    vals.push(b);
                },
                Err(_) => {
                    self.failed = true;
                    proof {
                        assert(src0[i] is Err);
                        assert(block_has_failure(src0));
                        assert(old(self).outputs() =~= seq![
                            Err::<char, CodecError>(CodecError::UpstreamFailure),
                        ]);
                    }
                    return Err(CodecError::UpstreamFailure);
                },
            }
        }
        let n = vals.len();
        if n < BINARY_BLOCK_SIZE {
            // The source ended inside this block.
            if n == 0 {
                self.done = true;
                proof {
                    assert(src0.len() == 0);
                    assert(old(self).outputs() =~= Seq::<Result<char, CodecError>>::empty());
                }
                return Ok(());
            }
            // Partial final group: pad with zero bytes, emit only the
            // first n + 1 characters, never the shorthand.
            let b0 = vals[0];
            let b1 = if n > 1 {
                vals[1]
            } else {
                0
            };
            let b2 = if n > 2 {
                vals[2]
            } else {
                0
            };
            let v: u32 = (b0 as u32) * 0x1000000 + (b1 as u32) * 0x10000 + (b2 as u32) * 0x100;
            let mut chars = Self::block_chars(v);
            chars.truncate(n + 1);
            self.pending = chars;
            self.last = true;
            proof {
                assert(src0.len() == n);
                assert(!block_has_failure(src0));
                assert(pad4(byte_vals(src0)) =~= seq![b0, b1, b2, 0u8]);
                assert(group_val(pad4(byte_vals(src0))) == v as int);
                assert(self.outputs() =~= old(self).outputs());
            }
            return Ok(());
        }
        // A full 4-byte group.
        let v: u32 = (vals[0] as u32) * 0x1000000 + (vals[1] as u32) * 0x10000 + (vals[2] as u32)
            * 0x100 + (vals[3] as u32);
        proof {
            assert(src0.len() >= 4);
            assert(!block_has_failure(src0));
            assert(byte_vals(src0.take(4)) =~= vals@);
            assert(group_val(byte_vals(src0.take(4))) == v as int);
            assert(self.source@.skip(pos0 + 4) =~= src0.skip(4));
        }
        if v == 0 {
            // Complete all-zero group: the single shorthand character.
            self.pending.push(CHAR_FOR_4_ZEROS);
            proof {
                assert(self.outputs() =~= old(self).outputs());
            }
            return Ok(());
        }
        self.pending = Self::block_chars(v);
        proof {
            assert(self.outputs() =~= old(self).outputs());
        }
        Ok(())
    }

    /// Produces the next character of the encoded text, a failure at the
    /// position where the source failed, or `None` once the stream is
    /// over.
    pub fn next(&mut self) -> (r: Option<Result<char, CodecError>>)
        requires
            old(self).wf(),
        ensures
            final(self).wf(),
            match r {
                Option::None => old(self).outputs().len() == 0 && final(self).outputs().len() == 0,
                Option::Some(x) => old(self).outputs().len() > 0 && x == old(self).outputs()[0]
                    && final(self).outputs() == old(self).outputs().skip(1),
            },
    {
        if self.failed || self.done {
            return None;
        }
        if self.pending.len() == 0 {
            if self.last {
                self.done = true;
                return None;
            }
            match self.encode_block() {
                Err(e) => {
                    return Some(Err(e));
                },
                Ok(_) => {
                    if self.done {
                        return None;
                    }
                },
            }
        }
        let ghost pre = *self;
        let c = self.pending.remove(0);
        proof {
            assert(pre.outputs()[0] == Ok::<char, CodecError>(c));
            assert(self.outputs() =~= pre.outputs().skip(1));
        }
        Some(Ok(c))
    }
}

/// Extends byte-or-failure sources with an adapter into the encoder.
pub trait Ascii85EncodingExtension: Sized {
    /// The normalized byte-or-failure elements of this source.
    spec fn byte_elems(self) -> Seq<Result<u8, CodecError>>;

    /// Returns a new encoder that consumes this source.
    fn ascii85_encoding(self) -> (r: Ascii85Encoding)
        ensures
            r.wf(),
            r.outputs() == encode_stream(self.byte_elems()),
    ;
}

impl<T: ByteResult> Ascii85EncodingExtension for Vec<T> {
    open spec fn byte_elems(self) -> Seq<Result<u8, CodecError>> {
        byte_elems_of(self@)
    }

    fn ascii85_encoding(self) -> (r: Ascii85Encoding) {
        Ascii85Encoding::new(self)
    }
}

} // verus!
