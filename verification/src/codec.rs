//! The snapshot codec: a payload serialized to plain bytes and restored
//! from them, with round-trip fidelity proved — deserializing what
//! serialize produced yields the same dimensions, template and store,
//! value for value.
//!
//! The layout is fixed-width little-endian integers with length-prefixed
//! sequences; characters travel as their Unicode scalar values. The
//! layout itself is no part of the contract, only the round trip is.

use vstd::prelude::*;
use vstd::string::StrSliceExecFns;
use vstd::string::StringExecFns;

use crate::element::{Element, ElementModel};
use crate::neuron_template::{segments_model, NeuronTemplate, TemplateModel};
use crate::payload::{Payload, PayloadModel};
use crate::text::{char_from_u32, push_char};
use crate::value::{ArrayModel, Scope, Value, ValueArray, ValueModel};
use crate::values::{StoreModel, Values};

verus! {

/// The bytes of `part` stand in `buf` at `pos`.
pub open spec fn starts_at(buf: Seq<u8>, pos: int, part: Seq<u8>) -> bool {
    &&& 0 <= pos
    &&& pos + part.len() <= buf.len()
    &&& buf.subrange(pos, pos + part.len()) == part
}

/// A part of a concatenation stands where the concatenation stands.
pub proof fn lemma_starts_at_concat(buf: Seq<u8>, pos: int, a: Seq<u8>, b: Seq<u8>)
    requires
        starts_at(buf, pos, a + b),
    ensures
        starts_at(buf, pos, a),
        starts_at(buf, pos + a.len(), b),
{
    assert(buf.subrange(pos, pos + a.len()) =~= (a + b).subrange(0, a.len() as int));
    assert((a + b).subrange(0, a.len() as int) =~= a);
    assert(buf.subrange(pos + a.len(), pos + a.len() + b.len()) =~= (a + b).subrange(
        a.len() as int,
        (a + b).len() as int,
    ));
    assert((a + b).subrange(a.len() as int, (a + b).len() as int) =~= b);
}

/// The little-endian bytes of a `u64`.
pub open spec fn spec_ser_u64(v: u64) -> Seq<u8> {
    seq![
        v as u8,
        (v >> 8) as u8,
        (v >> 16) as u8,
        (v >> 24) as u8,
        (v >> 32) as u8,
        (v >> 40) as u8,
        (v >> 48) as u8,
        (v >> 56) as u8,
    ]
}

/// The little-endian bytes of a `u32`.
pub open spec fn spec_ser_u32(v: u32) -> Seq<u8> {
    seq![v as u8, (v >> 8) as u8, (v >> 16) as u8, (v >> 24) as u8]
}

/// A `u64` is recovered from its little-endian bytes.
proof fn lemma_u64_le_round_trip(v: u64)
    ensures
        (v as u8) as u64 | (((v >> 8) as u8) as u64) << 8 | (((v >> 16) as u8) as u64) << 16 | (((v
            >> 24) as u8) as u64) << 24 | (((v >> 32) as u8) as u64) << 32 | (((v >> 40) as u8)
            as u64) << 40 | (((v >> 48) as u8) as u64) << 48 | (((v >> 56) as u8) as u64) << 56
            == v,
{
    assert((v as u8) as u64 | (((v >> 8) as u8) as u64) << 8 | (((v >> 16) as u8) as u64) << 16 | ((
    (v >> 24) as u8) as u64) << 24 | (((v >> 32) as u8) as u64) << 32 | (((v >> 40) as u8) as u64)
        << 40 | (((v >> 48) as u8) as u64) << 48 | (((v >> 56) as u8) as u64) << 56 == v)
        by (bit_vector);
}

/// A `u32` is recovered from its little-endian bytes.
proof fn lemma_u32_le_round_trip(v: u32)
    ensures
        (v as u8) as u32 | (((v >> 8) as u8) as u32) << 8 | (((v >> 16) as u8) as u32) << 16 | (((v
            >> 24) as u8) as u32) << 24 == v,
{
    assert((v as u8) as u32 | (((v >> 8) as u8) as u32) << 8 | (((v >> 16) as u8) as u32) << 16 | ((
    (v >> 24) as u8) as u32) << 24 == v) by (bit_vector);
}

/// Appends the little-endian bytes of `v`.
fn ser_u64(out: &mut Vec<u8>, v: u64)
    ensures
        final(out)@ == old(out)@ + spec_ser_u64(v),
{
    out.push(#[verifier::truncate] (v as u8));
    out.push(#[verifier::truncate] ((v >> 8u64) as u8));
    out.push(#[verifier::truncate] ((v >> 16u64) as u8));
    out.push(#[verifier::truncate] ((v >> 24u64) as u8));
    out.push(#[verifier::truncate] ((v >> 32u64) as u8));
    out.push(#[verifier::truncate] ((v >> 40u64) as u8));
    out.push(#[verifier::truncate] ((v >> 48u64) as u8));
    out.push(#[verifier::truncate] ((v >> 56u64) as u8));
    proof {
        assert(final(out)@ =~= old(out)@ + spec_ser_u64(v));
    }
}

/// Appends the little-endian bytes of `v`.
fn ser_u32(out: &mut Vec<u8>, v: u32)
    ensures
        final(out)@ == old(out)@ + spec_ser_u32(v),
{
    out.push(#[verifier::truncate] (v as u8));
    out.push(#[verifier::truncate] ((v >> 8u32) as u8));
    out.push(#[verifier::truncate] ((v >> 16u32) as u8));
    out.push(#[verifier::truncate] ((v >> 24u32) as u8));
    proof {
        assert(final(out)@ =~= old(out)@ + spec_ser_u32(v));
    }
}

/// Reads a `u64` back; see [`spec_ser_u64`].
fn de_u64(buf: &Vec<u8>, pos: usize) -> (r: Option<(u64, usize)>)
    ensures
        forall|x: u64|
            starts_at(buf@, pos as int, #[trigger] spec_ser_u64(x)) ==> r == Some(
                (x, (pos + 8) as usize),
            ),
{
    let n = buf.len();
    if n < 8 || pos > n - 8 {
        proof {
            assert forall|x: u64| !starts_at(buf@, pos as int, #[trigger] spec_ser_u64(x)) by {}
        }
        return None;
    }
    let v = buf[pos] as u64 | (buf[pos + 1] as u64) << 8u64 | (buf[pos + 2] as u64) << 16u64 | (
    buf[pos + 3] as u64) << 24u64 | (buf[pos + 4] as u64) << 32u64 | (buf[pos + 5] as u64)
        << 40u64 | (buf[pos + 6] as u64) << 48u64 | (buf[pos + 7] as u64) << 56u64;
    proof {
        assert forall|x: u64|
            starts_at(buf@, pos as int, #[trigger] spec_ser_u64(x)) implies v == x by {
            assert(buf@.subrange(pos as int, pos + 8)[0] == buf@[pos as int]);
            assert(buf@.subrange(pos as int, pos + 8)[1] == buf@[pos as int + 1]);
            assert(buf@.subrange(pos as int, pos + 8)[2] == buf@[pos as int + 2]);
            assert(buf@.subrange(pos as int, pos + 8)[3] == buf@[pos as int + 3]);
            assert(buf@.subrange(pos as int, pos + 8)[4] == buf@[pos as int + 4]);
            assert(buf@.subrange(pos as int, pos + 8)[5] == buf@[pos as int + 5]);
            assert(buf@.subrange(pos as int, pos + 8)[6] == buf@[pos as int + 6]);
            assert(buf@.subrange(pos as int, pos + 8)[7] == buf@[pos as int + 7]);
            lemma_u64_le_round_trip(x);
        }
    }
    Some((v, pos + 8))
}

/// Reads a `u32` back; see [`spec_ser_u32`].
fn de_u32(buf: &Vec<u8>, pos: usize) -> (r: Option<(u32, usize)>)
    ensures
        forall|x: u32|
            starts_at(buf@, pos as int, #[trigger] spec_ser_u32(x)) ==> r == Some(
                (x, (pos + 4) as usize),
            ),
{
    let n = buf.len();
    if n < 4 || pos > n - 4 {
        return None;
    }
    let v = buf[pos] as u32 | (buf[pos + 1] as u32) << 8u32 | (buf[pos + 2] as u32) << 16u32 | (
    buf[pos + 3] as u32) << 24u32;
    proof {
        assert forall|x: u32|
            starts_at(buf@, pos as int, #[trigger] spec_ser_u32(x)) implies v == x by {
            assert(buf@.subrange(pos as int, pos + 4)[0] == buf@[pos as int]);
            assert(buf@.subrange(pos as int, pos + 4)[1] == buf@[pos as int + 1]);
            assert(buf@.subrange(pos as int, pos + 4)[2] == buf@[pos as int + 2]);
            assert(buf@.subrange(pos as int, pos + 4)[3] == buf@[pos as int + 3]);
            lemma_u32_le_round_trip(x);
        }
    }
    Some((v, pos + 4))
}

/// A `usize` travels as a `u64`.
pub open spec fn spec_ser_usize(v: usize) -> Seq<u8> {
    spec_ser_u64(v as u64)
}

/// A character travels as its Unicode scalar value.
pub open spec fn spec_ser_char(c: char) -> Seq<u8> {
    spec_ser_u32(c as u32)
}

/// The bytes of a character sequence, without a count.
pub open spec fn spec_ser_chars_raw(s: Seq<char>) -> Seq<u8>
    decreases s.len(),
{
    if s.len() == 0 {
        Seq::empty()
    } else {
        spec_ser_char(s[0]) + spec_ser_chars_raw(s.drop_first())
    }
}

/// The bytes of a string: its length, then its characters.
pub open spec fn spec_ser_string(s: Seq<char>) -> Seq<u8> {
    spec_ser_u64(s.len() as u64) + spec_ser_chars_raw(s)
}

/// Each character takes four bytes.
pub proof fn lemma_ser_chars_raw_len(s: Seq<char>)
    ensures
        spec_ser_chars_raw(s).len() == 4 * s.len(),
    decreases s.len(),
{
    if s.len() > 0 {
        lemma_ser_chars_raw_len(s.drop_first());
    }
}

/// Appends the bytes of a `usize`.
fn ser_usize(out: &mut Vec<u8>, v: usize)
    ensures
        final(out)@ == old(out)@ + spec_ser_usize(v),
{
    ser_u64(out, v as u64);
}

/// Reads a `usize` back; see [`spec_ser_usize`].
fn de_usize(buf: &Vec<u8>, pos: usize) -> (r: Option<(usize, usize)>)
    ensures
        forall|x: usize|
            starts_at(buf@, pos as int, #[trigger] spec_ser_usize(x)) ==> r == Some(
                (x, (pos + 8) as usize),
            ),
{
    match de_u64(buf, pos) {
        None => None,
        Some((v, p)) => {
            if v > usize::MAX as u64 {
                None
            } else {
                Some((v as usize, p))
            }
        },
    }
}

/// Reads a character back; see [`spec_ser_char`].
fn de_char(buf: &Vec<u8>, pos: usize) -> (r: Option<(char, usize)>)
    ensures
        forall|x: char|
            starts_at(buf@, pos as int, #[trigger] spec_ser_char(x)) ==> r == Some(
                (x, (pos + 4) as usize),
            ),
{
    match de_u32(buf, pos) {
        None => None,
        Some((v, p)) => {
            match char_from_u32(v) {
                None => {
                    proof {
                        assert forall|x: char|
                            !starts_at(buf@, pos as int, #[trigger] spec_ser_char(x)) by {
                            if starts_at(buf@, pos as int, spec_ser_char(x)) {
                                vstd::utf8::char_is_scalar(x);
                            }
                        }
                    }
                    None
                },
                Some(c) => {
                    proof {
                        assert forall|x: char|
                            starts_at(buf@, pos as int, #[trigger] spec_ser_char(x)) implies c
                            == x by {
                            vstd::utf8::char_u32_cast(x, v);
                            vstd::utf8::char_u32_cast(c, v);
                        }
                    }
                    Some((c, p))
                },
            }
        },
    }
}

/// Appends the characters of `s` from position `i` on.
fn ser_chars(out: &mut Vec<u8>, s: &str, i: usize)
    requires
        i <= s@.len(),
    ensures
        final(out)@ == old(out)@ + spec_ser_chars_raw(s@.skip(i as int)),
    decreases s@.len() - i,
{
    let len = s.unicode_len();
    if i < len {
        let c = s.get_char(i);
        ser_u32(out, c as u32);
        ser_chars(out, s, i + 1);
        proof {
            assert(s@.skip(i as int).drop_first() =~= s@.skip(i + 1));
            assert(s@.skip(i as int)[0] == s@[i as int]);
            assert(final(out)@ =~= old(out)@ + spec_ser_chars_raw(s@.skip(i as int)));
        }
    } else {
        proof {
            assert(s@.skip(i as int) =~= Seq::<char>::empty());
        }
    }
}

/// Appends the bytes of a string: length, then characters.
fn ser_string(out: &mut Vec<u8>, s: &str)
    ensures
        final(out)@ == old(out)@ + spec_ser_string(s@),
{
    let len = s.unicode_len();
    ser_u64(out, len as u64);
    ser_chars(out, s, 0);
    proof {
        assert(s@.skip(0) =~= s@);
        assert(final(out)@ =~= old(out)@ + spec_ser_string(s@));
    }
}

/// Reads `count` characters back into an owned string; see
/// [`spec_ser_chars_raw`].
fn de_chars(buf: &Vec<u8>, pos: usize, count: usize) -> (r: Option<(String, usize)>)
    ensures
        forall|s: Seq<char>|
            s.len() == count && starts_at(buf@, pos as int, #[trigger] spec_ser_chars_raw(s))
                ==> r is Some && (r->0).0@ == s && (r->0).1 == pos + spec_ser_chars_raw(s).len(),
    decreases count,
{
    let buf_len = buf.len();
    if count == 0 {
        let out = String::new();
        return Some((out, pos));
    }
    let first = de_char(buf, pos);
    let (c, p1) = match first {
        Some(x) => x,
        None => {
            proof {
                assert forall|s: Seq<char>|
                    s.len() == count && starts_at(
                        buf@,
                        pos as int,
                        #[trigger] spec_ser_chars_raw(s),
                    ) implies false by {
                    assert(spec_ser_chars_raw(s) == spec_ser_char(s[0]) + spec_ser_chars_raw(
                        s.drop_first(),
                    ));
                    lemma_starts_at_concat(
                        buf@,
                        pos as int,
                        spec_ser_char(s[0]),
                        spec_ser_chars_raw(s.drop_first()),
                    );
                    assert(starts_at(buf@, pos as int, spec_ser_char(s[0])));
                    assert(first == Some((s[0], (pos + 4) as usize)));
                }
            }
            return None;
        },
    };
    let tail = de_chars(buf, p1, count - 1);
    let (rest, p2) = match tail {
        Some(x) => x,
        None => {
            proof {
                assert forall|s: Seq<char>|
                    s.len() == count && starts_at(
                        buf@,
                        pos as int,
                        #[trigger] spec_ser_chars_raw(s),
                    ) implies false by {
                    lemma_starts_at_concat(
                        buf@,
                        pos as int,
                        spec_ser_char(s[0]),
                        spec_ser_chars_raw(s.drop_first()),
                    );
                }
            }
            return None;
        },
    };
    let mut out = String::new();
    push_char(&mut out, c);
    out.append(rest.as_str());
    proof {
        assert forall|s: Seq<char>|
            s.len() == count && starts_at(
                buf@,
                pos as int,
                #[trigger] spec_ser_chars_raw(s),
            ) implies out@ == s && p2 == pos + spec_ser_chars_raw(s).len() by {
            assert(s.len() > 0);
            assert(spec_ser_chars_raw(s) == spec_ser_char(s[0]) + spec_ser_chars_raw(
                s.drop_first(),
            ));
            lemma_starts_at_concat(
                buf@,
                pos as int,
                spec_ser_char(s[0]),
                spec_ser_chars_raw(s.drop_first()),
            );
            assert(starts_at(buf@, pos as int, spec_ser_char(s[0])));
            assert(spec_ser_char(s[0]).len() == 4);
            assert(c == s[0] && p1 == pos + 4);
            assert(starts_at(buf@, p1 as int, spec_ser_chars_raw(s.drop_first())));
            assert(s.drop_first().len() == count - 1);
            assert(rest@ == s.drop_first());
            assert(out@ =~= s);
        }
    }
    Some((out, p2))
}

/// Reads a string back; see [`spec_ser_string`].
fn de_string(buf: &Vec<u8>, pos: usize) -> (r: Option<(String, usize)>)
    ensures
        forall|s: Seq<char>|
            starts_at(buf@, pos as int, #[trigger] spec_ser_string(s)) ==> r is Some && (
            r->0).0@ == s && (r->0).1 == pos + spec_ser_string(s).len(),
{
    let buf_len = buf.len();
    let counted = de_usize(buf, pos);
    let (count, p1) = match counted {
        Some(x) => x,
        None => {
            proof {
                assert forall|s: Seq<char>|
                    starts_at(buf@, pos as int, #[trigger] spec_ser_string(s)) implies false by {
                    lemma_string_count_fits(buf@, pos as int, s);
                    lemma_starts_at_concat(
                        buf@,
                        pos as int,
                        spec_ser_usize(s.len() as usize),
                        spec_ser_chars_raw(s),
                    );
                }
            }
            return None;
        },
    };
    let decoded = de_chars(buf, p1, count);
    match decoded {
        Some((out, p2)) => {
            proof {
                assert forall|s: Seq<char>|
                    starts_at(buf@, pos as int, #[trigger] spec_ser_string(s)) implies out@ == s
                    && p2 == pos + spec_ser_string(s).len() by {
                    lemma_string_count_fits(buf@, pos as int, s);
                    lemma_starts_at_concat(
                        buf@,
                        pos as int,
                        spec_ser_u64(s.len() as u64),
                        spec_ser_chars_raw(s),
                    );
                }
            }
            Some((out, p2))
        },
        None => {
            proof {
                assert forall|s: Seq<char>|
                    starts_at(buf@, pos as int, #[trigger] spec_ser_string(s)) implies false by {
                    lemma_string_count_fits(buf@, pos as int, s);
                    lemma_starts_at_concat(
                        buf@,
                        pos as int,
                        spec_ser_u64(s.len() as u64),
                        spec_ser_chars_raw(s),
                    );
                }
            }
            None
        },
    }
}

/// A string standing in a real buffer has a length that fits `usize`,
/// so its count field does not wrap.
proof fn lemma_string_count_fits(buf: Seq<u8>, pos: int, s: Seq<char>)
    requires
        starts_at(buf, pos, spec_ser_string(s)),
        buf.len() <= usize::MAX,
    ensures
        s.len() <= usize::MAX,
        (s.len() as u64) as usize as u64 == s.len() as u64,
        spec_ser_usize(s.len() as usize) == spec_ser_u64(s.len() as u64),
        starts_at(buf, pos, spec_ser_usize(s.len() as usize) + spec_ser_chars_raw(s)),
{
    lemma_ser_chars_raw_len(s);
}

/// The bytes of a `u32` sequence, without a count.
pub open spec fn spec_ser_u32s_raw(s: Seq<u32>) -> Seq<u8>
    decreases s.len(),
{
    if s.len() == 0 {
        Seq::empty()
    } else {
        spec_ser_u32(s[0]) + spec_ser_u32s_raw(s.drop_first())
    }
}

/// The bytes of a `usize` sequence, without a count.
pub open spec fn spec_ser_usizes_raw(s: Seq<usize>) -> Seq<u8>
    decreases s.len(),
{
    if s.len() == 0 {
        Seq::empty()
    } else {
        spec_ser_usize(s[0]) + spec_ser_usizes_raw(s.drop_first())
    }
}

/// The bytes of a string sequence, without a count.
pub open spec fn spec_ser_strings_raw(ss: Seq<Seq<char>>) -> Seq<u8>
    decreases ss.len(),
{
    if ss.len() == 0 {
        Seq::empty()
    } else {
        spec_ser_string(ss[0]) + spec_ser_strings_raw(ss.drop_first())
    }
}

/// Each `u32` takes four bytes.
pub proof fn lemma_ser_u32s_raw_len(s: Seq<u32>)
    ensures
        spec_ser_u32s_raw(s).len() == 4 * s.len(),
    decreases s.len(),
{
    if s.len() > 0 {
        lemma_ser_u32s_raw_len(s.drop_first());
    }
}

/// Each `usize` takes eight bytes.
pub proof fn lemma_ser_usizes_raw_len(s: Seq<usize>)
    ensures
        spec_ser_usizes_raw(s).len() == 8 * s.len(),
    decreases s.len(),
{
    if s.len() > 0 {
        lemma_ser_usizes_raw_len(s.drop_first());
    }
}

/// Each string takes at least its count field.
pub proof fn lemma_ser_strings_raw_len(ss: Seq<Seq<char>>)
    ensures
        spec_ser_strings_raw(ss).len() >= 8 * ss.len(),
    decreases ss.len(),
{
    if ss.len() > 0 {
        lemma_ser_strings_raw_len(ss.drop_first());
        lemma_ser_chars_raw_len(ss[0]);
    }
}

/// Appends the elements of `v` from position `i` on.
fn ser_u32s(out: &mut Vec<u8>, v: &Vec<u32>, i: usize)
    requires
        i <= v@.len(),
    ensures
        final(out)@ == old(out)@ + spec_ser_u32s_raw(v@.skip(i as int)),
    decreases v@.len() - i,
{
    if i < v.len() {
        ser_u32(out, v[i]);
        ser_u32s(out, v, i + 1);
        proof {
            assert(v@.skip(i as int).drop_first() =~= v@.skip(i + 1));
            assert(final(out)@ =~= old(out)@ + spec_ser_u32s_raw(v@.skip(i as int)));
        }
    } else {
        proof {
            assert(v@.skip(i as int) =~= Seq::<u32>::empty());
        }
    }
}

/// Appends the elements of `v` from position `i` on.
fn ser_usizes(out: &mut Vec<u8>, v: &Vec<usize>, i: usize)
    requires
        i <= v@.len(),
    ensures
        final(out)@ == old(out)@ + spec_ser_usizes_raw(v@.skip(i as int)),
    decreases v@.len() - i,
{
    if i < v.len() {
        ser_usize(out, v[i]);
        ser_usizes(out, v, i + 1);
        proof {
            assert(v@.skip(i as int).drop_first() =~= v@.skip(i + 1));
            assert(final(out)@ =~= old(out)@ + spec_ser_usizes_raw(v@.skip(i as int)));
        }
    } else {
        proof {
            assert(v@.skip(i as int) =~= Seq::<usize>::empty());
        }
    }
}

/// Appends the strings of `v` from position `i` on.
fn ser_strings(out: &mut Vec<u8>, v: &Vec<String>, i: usize)
    requires
        i <= v@.len(),
    ensures
        final(out)@ == old(out)@ + spec_ser_strings_raw(v.deep_view().skip(i as int)),
    decreases v@.len() - i,
{
    if i < v.len() {
        ser_string(out, v[i].as_str());
        ser_strings(out, v, i + 1);
        proof {
            assert(v.deep_view().skip(i as int).drop_first() =~= v.deep_view().skip(i + 1));
            assert(v.deep_view().skip(i as int)[0] == v@[i as int]@);
            assert(final(out)@ =~= old(out)@ + spec_ser_strings_raw(
                v.deep_view().skip(i as int),
            ));
        }
    } else {
        proof {
            assert(v.deep_view().skip(i as int) =~= Seq::<Seq<char>>::empty());
        }
    }
}

/// Reads `count` elements back; see [`spec_ser_u32s_raw`].
fn de_u32s(buf: &Vec<u8>, pos: usize, count: usize) -> (r: Option<(Vec<u32>, usize)>)
    ensures
        forall|s: Seq<u32>|
            s.len() == count && starts_at(buf@, pos as int, #[trigger] spec_ser_u32s_raw(s))
                ==> r is Some && (r->0).0@ == s && (r->0).1 == pos + spec_ser_u32s_raw(s).len(),
    decreases count,
{
    let buf_len = buf.len();
    if count == 0 {
        let out: Vec<u32> = Vec::new();
        return Some((out, pos));
    }
    let first = de_u32(buf, pos);
    let (v, p1) = match first {
        Some(x) => x,
        None => {
            proof {
                assert forall|s: Seq<u32>|
                    s.len() == count && starts_at(
                        buf@,
                        pos as int,
                        #[trigger] spec_ser_u32s_raw(s),
                    ) implies false by {
                    lemma_starts_at_concat(
                        buf@,
                        pos as int,
                        spec_ser_u32(s[0]),
                        spec_ser_u32s_raw(s.drop_first()),
                    );
                    assert(first == Some((s[0], (pos + 4) as usize)));
                }
            }
            return None;
        },
    };
    let tail = de_u32s(buf, p1, count - 1);
    let (mut rest, p2) = match tail {
        Some(x) => x,
        None => {
            proof {
                assert forall|s: Seq<u32>|
                    s.len() == count && starts_at(
                        buf@,
                        pos as int,
                        #[trigger] spec_ser_u32s_raw(s),
                    ) implies false by {
                    lemma_starts_at_concat(
                        buf@,
                        pos as int,
                        spec_ser_u32(s[0]),
                        spec_ser_u32s_raw(s.drop_first()),
                    );
                    assert(first == Some((s[0], (pos + 4) as usize)));
                }
            }
            return None;
        },
    };
    rest.insert(0, v);
    proof {
        assert forall|s: Seq<u32>|
            s.len() == count && starts_at(
                buf@,
                pos as int,
                #[trigger] spec_ser_u32s_raw(s),
            ) implies rest@ == s && p2 == pos + spec_ser_u32s_raw(s).len() by {
            lemma_starts_at_concat(
                buf@,
                pos as int,
                spec_ser_u32(s[0]),
                spec_ser_u32s_raw(s.drop_first()),
            );
            assert(first == Some((s[0], (pos + 4) as usize)));
            assert(rest@ =~= s);
        }
    }
    Some((rest, p2))
}

/// Reads `count` elements back; see [`spec_ser_usizes_raw`].
fn de_usizes(buf: &Vec<u8>, pos: usize, count: usize) -> (r: Option<(Vec<usize>, usize)>)
    ensures
        forall|s: Seq<usize>|
            s.len() == count && starts_at(buf@, pos as int, #[trigger] spec_ser_usizes_raw(s))
                ==> r is Some && (r->0).0@ == s && (r->0).1 == pos + spec_ser_usizes_raw(s).len(),
    decreases count,
{
    let buf_len = buf.len();
    if count == 0 {
        let out: Vec<usize> = Vec::new();
        return Some((out, pos));
    }
    let first = de_usize(buf, pos);
    let (v, p1) = match first {
        Some(x) => x,
        None => {
            proof {
                assert forall|s: Seq<usize>|
                    s.len() == count && starts_at(
                        buf@,
                        pos as int,
                        #[trigger] spec_ser_usizes_raw(s),
                    ) implies false by {
                    lemma_starts_at_concat(
                        buf@,
                        pos as int,
                        spec_ser_usize(s[0]),
                        spec_ser_usizes_raw(s.drop_first()),
                    );
                    assert(first == Some((s[0], (pos + 8) as usize)));
                }
            }
            return None;
        },
    };
    let tail = de_usizes(buf, p1, count - 1);
    let (mut rest, p2) = match tail {
        Some(x) => x,
        None => {
            proof {
                assert forall|s: Seq<usize>|
                    s.len() == count && starts_at(
                        buf@,
                        pos as int,
                        #[trigger] spec_ser_usizes_raw(s),
                    ) implies false by {
                    lemma_starts_at_concat(
                        buf@,
                        pos as int,
                        spec_ser_usize(s[0]),
                        spec_ser_usizes_raw(s.drop_first()),
                    );
                    assert(first == Some((s[0], (pos + 8) as usize)));
                }
            }
            return None;
        },
    };
    rest.insert(0, v);
    proof {
        assert forall|s: Seq<usize>|
            s.len() == count && starts_at(
                buf@,
                pos as int,
                #[trigger] spec_ser_usizes_raw(s),
            ) implies rest@ == s && p2 == pos + spec_ser_usizes_raw(s).len() by {
            lemma_starts_at_concat(
                buf@,
                pos as int,
                spec_ser_usize(s[0]),
                spec_ser_usizes_raw(s.drop_first()),
            );
            assert(first == Some((s[0], (pos + 8) as usize)));
            assert(rest@ =~= s);
        }
    }
    Some((rest, p2))
}

/// Reads `count` strings back; see [`spec_ser_strings_raw`].
fn de_strings(buf: &Vec<u8>, pos: usize, count: usize) -> (r: Option<(Vec<String>, usize)>)
    ensures
        forall|ss: Seq<Seq<char>>|
            ss.len() == count && starts_at(buf@, pos as int, #[trigger] spec_ser_strings_raw(ss))
                ==> r is Some && (r->0).0.deep_view() == ss && (r->0).1 == pos
                + spec_ser_strings_raw(ss).len(),
    decreases count,
{
    let buf_len = buf.len();
    if count == 0 {
        let out: Vec<String> = Vec::new();
        proof {
            assert forall|ss: Seq<Seq<char>>|
                ss.len() == count && starts_at(
                    buf@,
                    pos as int,
                    #[trigger] spec_ser_strings_raw(ss),
                ) implies out.deep_view() == ss by {
                assert(out.deep_view() =~= ss);
            }
        }
        return Some((out, pos));
    }
    let first = de_string(buf, pos);
    let (v, p1) = match first {
        Some(x) => x,
        None => {
            proof {
                assert forall|ss: Seq<Seq<char>>|
                    ss.len() == count && starts_at(
                        buf@,
                        pos as int,
                        #[trigger] spec_ser_strings_raw(ss),
                    ) implies false by {
                    lemma_starts_at_concat(
                        buf@,
                        pos as int,
                        spec_ser_string(ss[0]),
                        spec_ser_strings_raw(ss.drop_first()),
                    );
                    assert(first is Some);
                }
            }
            return None;
        },
    };
    let tail = de_strings(buf, p1, count - 1);
    let (mut rest, p2) = match tail {
        Some(x) => x,
        None => {
            proof {
                assert forall|ss: Seq<Seq<char>>|
                    ss.len() == count && starts_at(
                        buf@,
                        pos as int,
                        #[trigger] spec_ser_strings_raw(ss),
                    ) implies false by {
                    lemma_starts_at_concat(
                        buf@,
                        pos as int,
                        spec_ser_string(ss[0]),
                        spec_ser_strings_raw(ss.drop_first()),
                    );
                    assert(v@ == ss[0] && p1 == pos + spec_ser_string(ss[0]).len());
                }
            }
            return None;
        },
    };
    let ghost tail_entries = rest@;
    let ghost tail_dv = rest.deep_view();
    let ghost head_view = v@;
    rest.insert(0, v);
    proof {
        assert forall|ss: Seq<Seq<char>>|
            ss.len() == count && starts_at(
                buf@,
                pos as int,
                #[trigger] spec_ser_strings_raw(ss),
            ) implies rest.deep_view() == ss && p2 == pos + spec_ser_strings_raw(ss).len() by {
            lemma_starts_at_concat(
                buf@,
                pos as int,
                spec_ser_string(ss[0]),
                spec_ser_strings_raw(ss.drop_first()),
            );
            assert(head_view == ss[0] && p1 == pos + spec_ser_string(ss[0]).len());
            assert(tail_dv == ss.drop_first());
            assert(rest.deep_view().len() == ss.len());
            assert forall|i: int|
                0 <= i < rest.deep_view().len() implies rest.deep_view()[i] == ss[i] by {
                if i == 0 {
                    assert(rest@[0]@ == head_view);
                } else {
                    assert(rest@[i] == tail_entries[i - 1]);
                    assert(tail_dv[i - 1] == tail_entries[i - 1]@);
                }
            }
            assert(rest.deep_view() =~= ss);
        }
    }
    Some((rest, p2))
}

/// The byte that tags an array's element type.
pub open spec fn spec_array_tag(a: ArrayModel) -> u8 {
    match a {
        ArrayModel::Strings(_) => 0,
        ArrayModel::U32s(_) => 1,
        ArrayModel::F32s(_) => 2,
    }
}

/// The bytes of an array: its element-type tag, its length, and its
/// elements.
pub open spec fn spec_ser_array(a: ArrayModel) -> Seq<u8> {
    match a {
        ArrayModel::Strings(ss) => seq![0u8] + spec_ser_u64(ss.len() as u64)
            + spec_ser_strings_raw(ss),
        ArrayModel::U32s(s) => seq![1u8] + spec_ser_u64(s.len() as u64) + spec_ser_u32s_raw(s),
        ArrayModel::F32s(s) => seq![2u8] + spec_ser_u64(s.len() as u64) + spec_ser_u32s_raw(s),
    }
}

/// A single byte stands at `pos` exactly when it is `buf[pos]`.
proof fn lemma_starts_at_byte(buf: Seq<u8>, pos: int, t: u8, rest: Seq<u8>)
    requires
        starts_at(buf, pos, seq![t] + rest),
    ensures
        pos < buf.len(),
        buf[pos] == t,
        starts_at(buf, pos + 1, rest),
{
    lemma_starts_at_concat(buf, pos, seq![t], rest);
    assert(buf.subrange(pos, pos + 1)[0] == buf[pos]);
}

/// Appends the bytes of an array.
fn ser_array(out: &mut Vec<u8>, a: &ValueArray)
    ensures
        final(out)@ == old(out)@ + spec_ser_array(a@),
{
    match a {
        ValueArray::String(v) => {
            out.push(0u8);
            ser_u64(out, v.len() as u64);
            ser_strings(out, v, 0);
            proof {
                assert(v.deep_view().skip(0) =~= v.deep_view());
                assert(final(out)@ =~= old(out)@ + spec_ser_array(a@));
            }
        },
        ValueArray::U32(v) => {
            out.push(1u8);
            ser_u64(out, v.len() as u64);
            ser_u32s(out, v, 0);
            proof {
                assert(v@.skip(0) =~= v@);
                assert(final(out)@ =~= old(out)@ + spec_ser_array(a@));
            }
        },
        ValueArray::F32(v) => {
            out.push(2u8);
            ser_u64(out, v.len() as u64);
            ser_u32s(out, v, 0);
            proof {
                assert(v@.skip(0) =~= v@);
                assert(final(out)@ =~= old(out)@ + spec_ser_array(a@));
            }
        },
    }
}

/// The count field of an array standing in a real buffer does not wrap.
proof fn lemma_array_count_fits(buf: Seq<u8>, pos: int, a: ArrayModel)
    requires
        starts_at(buf, pos, spec_ser_array(a)),
        buf.len() <= usize::MAX,
    ensures
        a.len() <= usize::MAX,
        (a.len() as u64) as usize as u64 == a.len() as u64,
        spec_ser_usize(a.len() as usize) == spec_ser_u64(a.len() as u64),
        pos < buf.len() && buf[pos] == spec_array_tag(a),
        starts_at(
            buf,
            pos + 1,
            spec_ser_usize(a.len() as usize) + match a {
                ArrayModel::Strings(ss) => spec_ser_strings_raw(ss),
                ArrayModel::U32s(s) => spec_ser_u32s_raw(s),
                ArrayModel::F32s(s) => spec_ser_u32s_raw(s),
            },
        ),
{
    match a {
        ArrayModel::Strings(ss) => {
            lemma_ser_strings_raw_len(ss);
            let middle = spec_ser_u64(ss.len() as u64);
            let elems = spec_ser_strings_raw(ss);
            assert(spec_ser_array(a) =~= seq![0u8] + (middle + elems));
            lemma_starts_at_byte(buf, pos, 0, middle + elems);
            lemma_starts_at_concat(buf, pos + 1, middle, elems);
        },
        ArrayModel::U32s(s) => {
            lemma_ser_u32s_raw_len(s);
            let middle = spec_ser_u64(s.len() as u64);
            let elems = spec_ser_u32s_raw(s);
            assert(spec_ser_array(a) =~= seq![1u8] + (middle + elems));
            lemma_starts_at_byte(buf, pos, 1, middle + elems);
            lemma_starts_at_concat(buf, pos + 1, middle, elems);
        },
        ArrayModel::F32s(s) => {
            lemma_ser_u32s_raw_len(s);
            let middle = spec_ser_u64(s.len() as u64);
            let elems = spec_ser_u32s_raw(s);
            assert(spec_ser_array(a) =~= seq![2u8] + (middle + elems));
            lemma_starts_at_byte(buf, pos, 2, middle + elems);
            lemma_starts_at_concat(buf, pos + 1, middle, elems);
        },
    }
}

/// Reads an array back; see [`spec_ser_array`].
fn de_array(buf: &Vec<u8>, pos: usize) -> (r: Option<(ValueArray, usize)>)
    ensures
        forall|a: ArrayModel|
            starts_at(buf@, pos as int, #[trigger] spec_ser_array(a)) ==> r is Some && (
            r->0).0@ == a && (r->0).1 == pos + spec_ser_array(a).len(),
{
    let buf_len = buf.len();
    if pos >= buf_len {
        proof {
            assert forall|a: ArrayModel|
                starts_at(buf@, pos as int, #[trigger] spec_ser_array(a)) implies false by {
                lemma_array_count_fits(buf@, pos as int, a);
            }
        }
        return None;
    }
    let tag = buf[pos];
    let counted = de_usize(buf, pos + 1);
    let (count, p1) = match counted {
        Some(x) => x,
        None => {
            proof {
                assert forall|a: ArrayModel|
                    starts_at(buf@, pos as int, #[trigger] spec_ser_array(a)) implies false by {
                    lemma_array_count_fits(buf@, pos as int, a);
                    lemma_starts_at_concat(
                        buf@,
                        pos as int + 1,
                        spec_ser_usize(a.len() as usize),
                        match a {
                            ArrayModel::Strings(ss) => spec_ser_strings_raw(ss),
                            ArrayModel::U32s(s) => spec_ser_u32s_raw(s),
                            ArrayModel::F32s(s) => spec_ser_u32s_raw(s),
                        },
                    );
                    assert(counted == Some((a.len() as usize, (pos + 1 + 8) as usize)));
                }
            }
            return None;
        },
    };
    if tag == 0 {
        let listed = de_strings(buf, p1, count);
        match listed {
            Some((v, p2)) => {
                proof {
                    lemma_de_array_case(buf@, pos as int, counted, tag);
                }
                Some((ValueArray::String(v), p2))
            },
            None => {
                proof {
                    lemma_de_array_case(buf@, pos as int, counted, tag);
                }
                None
            },
        }
    } else if tag == 1 {
        let listed = de_u32s(buf, p1, count);
        match listed {
            Some((v, p2)) => {
                proof {
                    lemma_de_array_case(buf@, pos as int, counted, tag);
                }
                Some((ValueArray::U32(v), p2))
            },
            None => {
                proof {
                    lemma_de_array_case(buf@, pos as int, counted, tag);
                }
                None
            },
        }
    } else if tag == 2 {
        let listed = de_u32s(buf, p1, count);
        match listed {
            Some((v, p2)) => {
                proof {
                    lemma_de_array_case(buf@, pos as int, counted, tag);
                }
                Some((ValueArray::F32(v), p2))
            },
            None => {
                proof {
                    lemma_de_array_case(buf@, pos as int, counted, tag);
                }
                None
            },
        }
    } else {
        proof {
            assert forall|a: ArrayModel|
                starts_at(buf@, pos as int, #[trigger] spec_ser_array(a)) implies false by {
                lemma_array_count_fits(buf@, pos as int, a);
            }
        }
        None
    }
}

/// Facts every branch of `de_array` draws on: which models can stand at
/// `pos` given the tag byte, and where their element bytes start.
proof fn lemma_de_array_case(buf: Seq<u8>, pos: int, counted: Option<(usize, usize)>, tag: u8)
    requires
        buf.len() <= usize::MAX,
        0 <= pos < buf.len(),
        buf[pos] == tag,
    ensures
        forall|a: ArrayModel|
            starts_at(buf, pos, #[trigger] spec_ser_array(a)) ==> spec_array_tag(a) == tag
                && starts_at(
                buf,
                pos + 9,
                match a {
                    ArrayModel::Strings(ss) => spec_ser_strings_raw(ss),
                    ArrayModel::U32s(s) => spec_ser_u32s_raw(s),
                    ArrayModel::F32s(s) => spec_ser_u32s_raw(s),
                },
            ) && a.len() <= usize::MAX && starts_at(
                buf,
                pos + 1,
                spec_ser_usize(a.len() as usize),
            ) && spec_ser_array(a).len() == 9 + match a {
                ArrayModel::Strings(ss) => spec_ser_strings_raw(ss).len(),
                ArrayModel::U32s(s) => spec_ser_u32s_raw(s).len(),
                ArrayModel::F32s(s) => spec_ser_u32s_raw(s).len(),
            },
{
    assert forall|a: ArrayModel|
        starts_at(buf, pos, #[trigger] spec_ser_array(a)) implies spec_array_tag(a) == tag
        && starts_at(
        buf,
        pos + 9,
        match a {
            ArrayModel::Strings(ss) => spec_ser_strings_raw(ss),
            ArrayModel::U32s(s) => spec_ser_u32s_raw(s),
            ArrayModel::F32s(s) => spec_ser_u32s_raw(s),
        },
    ) && a.len() <= usize::MAX && starts_at(buf, pos + 1, spec_ser_usize(a.len() as usize))
        && spec_ser_array(a).len() == 9 + match a {
        ArrayModel::Strings(ss) => spec_ser_strings_raw(ss).len(),
        ArrayModel::U32s(s) => spec_ser_u32s_raw(s).len(),
        ArrayModel::F32s(s) => spec_ser_u32s_raw(s).len(),
    } by {
        lemma_array_count_fits(buf, pos, a);
        lemma_starts_at_concat(
            buf,
            pos + 1,
            spec_ser_usize(a.len() as usize),
            match a {
                ArrayModel::Strings(ss) => spec_ser_strings_raw(ss),
                ArrayModel::U32s(s) => spec_ser_u32s_raw(s),
                ArrayModel::F32s(s) => spec_ser_u32s_raw(s),
            },
        );
    }
}


/// The byte that tags a scope.
pub open spec fn spec_scope_tag(sc: Scope) -> u8 {
    match sc {
        Scope::Global => 0,
        Scope::Layer => 1,
        Scope::Neuron => 2,
    }
}

/// The bytes of a value: its shape with its axis count, its array, and
/// its scope tag.
pub open spec fn spec_ser_value(v: ValueModel) -> Seq<u8> {
    spec_ser_u64(v.shape.len() as u64) + spec_ser_usizes_raw(v.shape) + spec_ser_array(v.array)
        + seq![spec_scope_tag(v.scope)]
}

/// Appends the bytes of a value.
fn ser_value(out: &mut Vec<u8>, v: &Value)
    ensures
        final(out)@ == old(out)@ + spec_ser_value(v@),
{
    let shape = v.shape();
    ser_u64(out, shape.len() as u64);
    ser_usizes(out, shape, 0);
    ser_array(out, v.array());
    let tag: u8 = match v.scope() {
        Scope::Global => 0,
        Scope::Layer => 1,
        Scope::Neuron => 2,
    };
    out.push(tag);
    proof {
        assert(shape@.skip(0) =~= shape@);
        assert(final(out)@ =~= old(out)@ + spec_ser_value(v@));
    }
}

/// Where the pieces of a value stand, given the whole value stands.
proof fn lemma_value_parts(buf: Seq<u8>, pos: int, v: ValueModel)
    requires
        starts_at(buf, pos, spec_ser_value(v)),
        buf.len() <= usize::MAX,
    ensures
        v.shape.len() <= usize::MAX,
        starts_at(buf, pos, spec_ser_usize(v.shape.len() as usize)),
        starts_at(buf, pos + 8, spec_ser_usizes_raw(v.shape)),
        starts_at(buf, pos + 8 + 8 * v.shape.len(), spec_ser_array(v.array)),
        pos + 8 + 8 * v.shape.len() + spec_ser_array(v.array).len() < buf.len(),
        buf[pos + 8 + 8 * v.shape.len() + spec_ser_array(v.array).len()] == spec_scope_tag(
            v.scope,
        ),
        spec_ser_value(v).len() == 8 + 8 * v.shape.len() + spec_ser_array(v.array).len() + 1,
{
    lemma_ser_usizes_raw_len(v.shape);
    let c = spec_ser_u64(v.shape.len() as u64);
    let sh = spec_ser_usizes_raw(v.shape);
    let ar = spec_ser_array(v.array);
    let tg = seq![spec_scope_tag(v.scope)];
    assert(spec_ser_value(v) =~= c + (sh + (ar + tg)));
    lemma_starts_at_concat(buf, pos, c, sh + (ar + tg));
    lemma_starts_at_concat(buf, pos + 8, sh, ar + tg);
    lemma_starts_at_concat(buf, pos + 8 + 8 * v.shape.len(), ar, tg);
    let tag_pos = pos + 8 + 8 * v.shape.len() + ar.len();
    assert(buf.subrange(tag_pos, tag_pos + 1)[0] == buf[tag_pos]);
}

/// Reads a value back; see [`spec_ser_value`]. Only a well-formed value
/// — one whose array holds exactly one element per point of its shape —
/// comes back, so only well-formed values enter a decoded store.
#[verifier::rlimit(80)]
fn de_value(buf: &Vec<u8>, pos: usize) -> (r: Option<(Value, usize)>)
    ensures
        forall|v: ValueModel|
            v.wf() && starts_at(buf@, pos as int, #[trigger] spec_ser_value(v)) ==> r is Some && (
            r->0).0@ == v && (r->0).1 == pos + spec_ser_value(v).len(),
        r is Some ==> (r->0).0@.wf(),
{
    let buf_len = buf.len();
    let counted = de_usize(buf, pos);
    let (axis_count, p1) = match counted {
        Some(x) => x,
        None => {
            proof {
                assert forall|v: ValueModel|
                    v.wf() && starts_at(
                        buf@,
                        pos as int,
                        #[trigger] spec_ser_value(v),
                    ) implies false by {
                    lemma_value_parts(buf@, pos as int, v);
                }
            }
            return None;
        },
    };
    let shaped = de_usizes(buf, p1, axis_count);
    let (shape, p2) = match shaped {
        Some(x) => x,
        None => {
            proof {
                assert forall|v: ValueModel|
                    v.wf() && starts_at(
                        buf@,
                        pos as int,
                        #[trigger] spec_ser_value(v),
                    ) implies false by {
                    lemma_value_parts(buf@, pos as int, v);
                }
            }
            return None;
        },
    };
    let arrayed = de_array(buf, p2);
    let (array, p3) = match arrayed {
        Some(x) => x,
        None => {
            proof {
                assert forall|v: ValueModel|
                    v.wf() && starts_at(
                        buf@,
                        pos as int,
                        #[trigger] spec_ser_value(v),
                    ) implies false by {
                    lemma_value_parts(buf@, pos as int, v);
                    lemma_ser_usizes_raw_len(v.shape);
                }
            }
            return None;
        },
    };
    if p3 >= buf_len {
        proof {
            assert forall|v: ValueModel|
                v.wf() && starts_at(
                    buf@,
                    pos as int,
                    #[trigger] spec_ser_value(v),
                ) implies false by {
                lemma_value_parts(buf@, pos as int, v);
            }
        }
        return None;
    }
    let tag = buf[p3];
    let scope = if tag == 0 {
        Scope::Global
    } else if tag == 1 {
        Scope::Layer
    } else if tag == 2 {
        Scope::Neuron
    } else {
        proof {
            assert forall|v: ValueModel|
                v.wf() && starts_at(
                    buf@,
                    pos as int,
                    #[trigger] spec_ser_value(v),
                ) implies false by {
                lemma_value_parts(buf@, pos as int, v);
            }
        }
        return None;
    };
    let made = Value::new(array, shape, scope);
    match made {
        Some(value) => {
            proof {
                assert forall|v: ValueModel|
                    v.wf() && starts_at(
                        buf@,
                        pos as int,
                        #[trigger] spec_ser_value(v),
                    ) implies value@ == v && p3 + 1 == pos + spec_ser_value(v).len() by {
                    lemma_value_parts(buf@, pos as int, v);
                    assert(value@ =~= v);
                }
            }
            Some((value, p3 + 1))
        },
        None => {
            proof {
                assert forall|v: ValueModel|
                    v.wf() && starts_at(
                        buf@,
                        pos as int,
                        #[trigger] spec_ser_value(v),
                    ) implies false by {
                    lemma_value_parts(buf@, pos as int, v);
                }
            }
            None
        },
    }
}


/// The bytes of an element directive: its kind tag and its argument
/// names.
pub open spec fn spec_ser_element(e: ElementModel) -> Seq<u8> {
    match e {
        ElementModel::Heatmap(name) => seq![0u8] + spec_ser_string(name),
        ElementModel::Value(name) => seq![1u8] + spec_ser_string(name),
        ElementModel::FocusSequences { activations, step_names } => seq![2u8] + spec_ser_string(
            activations,
        ) + spec_ser_string(step_names),
    }
}

/// Appends the bytes of an element.
fn ser_element(out: &mut Vec<u8>, e: &Element)
    ensures
        final(out)@ == old(out)@ + spec_ser_element(e@),
{
    match e {
        Element::Heatmap(name) => {
            out.push(0u8);
            ser_string(out, name.as_str());
            proof {
                assert(final(out)@ =~= old(out)@ + spec_ser_element(e@));
            }
        },
        Element::Value(name) => {
            out.push(1u8);
            ser_string(out, name.as_str());
            proof {
                assert(final(out)@ =~= old(out)@ + spec_ser_element(e@));
            }
        },
        Element::FocusSequences { activations, step_names } => {
            out.push(2u8);
            ser_string(out, activations.as_str());
            ser_string(out, step_names.as_str());
            proof {
                assert(final(out)@ =~= old(out)@ + spec_ser_element(e@));
            }
        },
    }
}

/// Where the pieces of an element stand, given the element stands.
proof fn lemma_element_parts(buf: Seq<u8>, pos: int, e: ElementModel)
    requires
        starts_at(buf, pos, spec_ser_element(e)),
        buf.len() <= usize::MAX,
    ensures
        pos < buf.len(),
        buf[pos] == (match e {
            ElementModel::Heatmap(_) => 0u8,
            ElementModel::Value(_) => 1u8,
            ElementModel::FocusSequences { .. } => 2u8,
        }),
        e matches ElementModel::Heatmap(name) ==> starts_at(buf, pos + 1, spec_ser_string(name)),
        e matches ElementModel::Value(name) ==> starts_at(buf, pos + 1, spec_ser_string(name)),
        e matches ElementModel::FocusSequences { activations, step_names } ==> starts_at(
            buf,
            pos + 1,
            spec_ser_string(activations),
        ) && starts_at(
            buf,
            pos + 1 + spec_ser_string(activations).len(),
            spec_ser_string(step_names),
        ),
        spec_ser_element(e).len() == 1 + (match e {
            ElementModel::Heatmap(name) => spec_ser_string(name).len(),
            ElementModel::Value(name) => spec_ser_string(name).len(),
            ElementModel::FocusSequences { activations, step_names } => spec_ser_string(
                activations,
            ).len() + spec_ser_string(step_names).len(),
        }),
{
    match e {
        ElementModel::Heatmap(name) => {
            lemma_starts_at_byte(buf, pos, 0, spec_ser_string(name));
        },
        ElementModel::Value(name) => {
            lemma_starts_at_byte(buf, pos, 1, spec_ser_string(name));
        },
        ElementModel::FocusSequences { activations, step_names } => {
            assert(spec_ser_element(e) =~= seq![2u8] + (spec_ser_string(activations)
                + spec_ser_string(step_names)));
            lemma_starts_at_byte(
                buf,
                pos,
                2,
                spec_ser_string(activations) + spec_ser_string(step_names),
            );
            lemma_starts_at_concat(
                buf,
                pos + 1,
                spec_ser_string(activations),
                spec_ser_string(step_names),
            );
        },
    }
}

/// Reads an element back; see [`spec_ser_element`].
fn de_element(buf: &Vec<u8>, pos: usize) -> (r: Option<(Element, usize)>)
    ensures
        forall|e: ElementModel|
            starts_at(buf@, pos as int, #[trigger] spec_ser_element(e)) ==> r is Some && (
            r->0).0@ == e && (r->0).1 == pos + spec_ser_element(e).len(),
{
    let buf_len = buf.len();
    if pos >= buf_len {
        proof {
            assert forall|e: ElementModel|
                starts_at(buf@, pos as int, #[trigger] spec_ser_element(e)) implies false by {
                lemma_element_parts(buf@, pos as int, e);
            }
        }
        return None;
    }
    let tag = buf[pos];
    if tag > 2 {
        proof {
            assert forall|e: ElementModel|
                starts_at(buf@, pos as int, #[trigger] spec_ser_element(e)) implies false by {
                lemma_element_parts(buf@, pos as int, e);
            }
        }
        return None;
    }
    let first = de_string(buf, pos + 1);
    let (name, p1) = match first {
        Some(x) => x,
        None => {
            proof {
                assert forall|e: ElementModel|
                    starts_at(buf@, pos as int, #[trigger] spec_ser_element(e)) implies false by {
                    lemma_element_parts(buf@, pos as int, e);
                }
            }
            return None;
        },
    };
    if tag == 0 {
        proof {
            assert forall|e: ElementModel|
                starts_at(
                    buf@,
                    pos as int,
                    #[trigger] spec_ser_element(e),
                ) implies e matches ElementModel::Heatmap(n) && name@ == n && p1 == pos
                + spec_ser_element(e).len() by {
                lemma_element_parts(buf@, pos as int, e);
            }
        }
        Some((Element::Heatmap(name), p1))
    } else if tag == 1 {
        proof {
            assert forall|e: ElementModel|
                starts_at(
                    buf@,
                    pos as int,
                    #[trigger] spec_ser_element(e),
                ) implies e matches ElementModel::Value(n) && name@ == n && p1 == pos
                + spec_ser_element(e).len() by {
                lemma_element_parts(buf@, pos as int, e);
            }
        }
        Some((Element::Value(name), p1))
    } else {
        let second = de_string(buf, p1);
        let (step_names, p2) = match second {
            Some(x) => x,
            None => {
                proof {
                    assert forall|e: ElementModel|
                        starts_at(
                            buf@,
                            pos as int,
                            #[trigger] spec_ser_element(e),
                        ) implies false by {
                        lemma_element_parts(buf@, pos as int, e);
                    }
                }
                return None;
            },
        };
        proof {
            assert forall|e: ElementModel|
                starts_at(
                    buf@,
                    pos as int,
                    #[trigger] spec_ser_element(e),
                ) implies e matches ElementModel::FocusSequences { activations, step_names: sn }
                && name@ == activations && step_names@ == sn && p2 == pos + spec_ser_element(
                e,
            ).len() by {
                lemma_element_parts(buf@, pos as int, e);
            }
        }
        Some((Element::FocusSequences { activations: name, step_names }, p2))
    }
}

/// The bytes of a template's segments, without a count: each directive
/// followed by its literal suffix.
pub open spec fn spec_ser_segments_raw(segs: Seq<(ElementModel, Seq<char>)>) -> Seq<u8>
    decreases segs.len(),
{
    if segs.len() == 0 {
        Seq::empty()
    } else {
        spec_ser_element(segs[0].0) + spec_ser_string(segs[0].1) + spec_ser_segments_raw(
            segs.drop_first(),
        )
    }
}

/// Each segment takes at least its element tag.
pub proof fn lemma_ser_segments_raw_len(segs: Seq<(ElementModel, Seq<char>)>)
    ensures
        spec_ser_segments_raw(segs).len() >= segs.len(),
    decreases segs.len(),
{
    if segs.len() > 0 {
        lemma_ser_segments_raw_len(segs.drop_first());
    }
}

/// The bytes of a template: its literal prefix, then its counted
/// segments.
pub open spec fn spec_ser_template(t: TemplateModel) -> Seq<u8> {
    spec_ser_string(t.prefix) + spec_ser_u64(t.segments.len() as u64) + spec_ser_segments_raw(
        t.segments,
    )
}

/// Appends the segments of a template from position `i` on.
fn ser_segments(out: &mut Vec<u8>, t: &NeuronTemplate, i: usize)
    requires
        i <= t@.segments.len(),
    ensures
        final(out)@ == old(out)@ + spec_ser_segments_raw(t@.segments.skip(i as int)),
    decreases t@.segments.len() - i,
{
    let n = t.segment_count();
    if i < n {
        let (element, suffix) = t.segment_at(i);
        ser_element(out, element);
        ser_string(out, suffix.as_str());
        ser_segments(out, t, i + 1);
        proof {
            assert(t@.segments.skip(i as int).drop_first() =~= t@.segments.skip(i + 1));
            assert(final(out)@ =~= old(out)@ + spec_ser_segments_raw(t@.segments.skip(i as int)));
        }
    } else {
        proof {
            assert(t@.segments.skip(i as int) =~= Seq::<(ElementModel, Seq<char>)>::empty());
        }
    }
}

/// Appends the bytes of a template.
fn ser_template(out: &mut Vec<u8>, t: &NeuronTemplate)
    ensures
        final(out)@ == old(out)@ + spec_ser_template(t@),
{
    ser_string(out, t.prefix().as_str());
    ser_u64(out, t.segment_count() as u64);
    ser_segments(out, t, 0);
    proof {
        assert(t@.segments.skip(0) =~= t@.segments);
        assert(final(out)@ =~= old(out)@ + spec_ser_template(t@));
    }
}

/// Reads `count` segments back; see [`spec_ser_segments_raw`].
fn de_segments(buf: &Vec<u8>, pos: usize, count: usize) -> (r: Option<
    (Vec<(Element, String)>, usize),
>)
    ensures
        forall|segs: Seq<(ElementModel, Seq<char>)>|
            segs.len() == count && starts_at(
                buf@,
                pos as int,
                #[trigger] spec_ser_segments_raw(segs),
            ) ==> r is Some && segments_model((r->0).0@) == segs && (r->0).1 == pos
                + spec_ser_segments_raw(segs).len(),
    decreases count,
{
    let buf_len = buf.len();
    if count == 0 {
        let out: Vec<(Element, String)> = Vec::new();
        proof {
            assert forall|segs: Seq<(ElementModel, Seq<char>)>|
                segs.len() == count && starts_at(
                    buf@,
                    pos as int,
                    #[trigger] spec_ser_segments_raw(segs),
                ) implies segments_model(out@) == segs by {
                assert(segments_model(out@) =~= segs);
            }
        }
        return Some((out, pos));
    }
    let first = de_element(buf, pos);
    let (element, p1) = match first {
        Some(x) => x,
        None => {
            proof {
                assert forall|segs: Seq<(ElementModel, Seq<char>)>|
                    segs.len() == count && starts_at(
                        buf@,
                        pos as int,
                        #[trigger] spec_ser_segments_raw(segs),
                    ) implies false by {
                    lemma_segments_head(buf@, pos as int, segs);
                }
            }
            return None;
        },
    };
    let suffixed = de_string(buf, p1);
    let (suffix, p2) = match suffixed {
        Some(x) => x,
        None => {
            proof {
                assert forall|segs: Seq<(ElementModel, Seq<char>)>|
                    segs.len() == count && starts_at(
                        buf@,
                        pos as int,
                        #[trigger] spec_ser_segments_raw(segs),
                    ) implies false by {
                    lemma_segments_head(buf@, pos as int, segs);
                    assert(element@ == segs[0].0);
                }
            }
            return None;
        },
    };
    let tail = de_segments(buf, p2, count - 1);
    let (mut rest, p3) = match tail {
        Some(x) => x,
        None => {
            proof {
                assert forall|segs: Seq<(ElementModel, Seq<char>)>|
                    segs.len() == count && starts_at(
                        buf@,
                        pos as int,
                        #[trigger] spec_ser_segments_raw(segs),
                    ) implies false by {
                    lemma_segments_head(buf@, pos as int, segs);
                    assert(element@ == segs[0].0 && suffix@ == segs[0].1);
                }
            }
            return None;
        },
    };
    let ghost tail_entries = rest@;
    let ghost elem_view = element@;
    let ghost suffix_view = suffix@;
    rest.insert(0, (element, suffix));
    proof {
        assert forall|segs: Seq<(ElementModel, Seq<char>)>|
            segs.len() == count && starts_at(
                buf@,
                pos as int,
                #[trigger] spec_ser_segments_raw(segs),
            ) implies segments_model(rest@) == segs && p3 == pos + spec_ser_segments_raw(
            segs,
        ).len() by {
            lemma_segments_head(buf@, pos as int, segs);
            assert(elem_view == segs[0].0 && suffix_view == segs[0].1);
            assert(segments_model(tail_entries) == segs.drop_first());
            assert(segments_model(rest@).len() == segs.len());
            assert forall|i: int|
                0 <= i < segments_model(rest@).len() implies segments_model(rest@)[i]
                == segs[i] by {
                if i == 0 {
                    assert(rest@[0].0@ == elem_view && rest@[0].1@ == suffix_view);
                } else {
                    assert(rest@[i] == tail_entries[i - 1]);
                    assert(segments_model(tail_entries)[i - 1] == (tail_entries[i - 1].0@,
                    tail_entries[i - 1].1@));
                }
            }
            assert(segments_model(rest@) =~= segs);
        }
    }
    Some((rest, p3))
}

/// Where the head segment's pieces stand, given the segments stand.
proof fn lemma_segments_head(buf: Seq<u8>, pos: int, segs: Seq<(ElementModel, Seq<char>)>)
    requires
        segs.len() > 0,
        starts_at(buf, pos, spec_ser_segments_raw(segs)),
    ensures
        starts_at(buf, pos, spec_ser_element(segs[0].0)),
        starts_at(buf, pos + spec_ser_element(segs[0].0).len(), spec_ser_string(segs[0].1)),
        starts_at(
            buf,
            pos + spec_ser_element(segs[0].0).len() + spec_ser_string(segs[0].1).len(),
            spec_ser_segments_raw(segs.drop_first()),
        ),
        spec_ser_segments_raw(segs).len() == spec_ser_element(segs[0].0).len() + spec_ser_string(
            segs[0].1,
        ).len() + spec_ser_segments_raw(segs.drop_first()).len(),
{
    let e = spec_ser_element(segs[0].0);
    let sfx = spec_ser_string(segs[0].1);
    let rest = spec_ser_segments_raw(segs.drop_first());
    assert(spec_ser_segments_raw(segs) =~= e + (sfx + rest));
    lemma_starts_at_concat(buf, pos, e, sfx + rest);
    lemma_starts_at_concat(buf, pos + e.len(), sfx, rest);
}

/// Reads a template back; see [`spec_ser_template`].
fn de_template(buf: &Vec<u8>, pos: usize) -> (r: Option<(NeuronTemplate, usize)>)
    ensures
        forall|t: TemplateModel|
            starts_at(buf@, pos as int, #[trigger] spec_ser_template(t)) ==> r is Some && (
            r->0).0@ == t && (r->0).1 == pos + spec_ser_template(t).len(),
{
    let buf_len = buf.len();
    let prefixed = de_string(buf, pos);
    let (prefix, p1) = match prefixed {
        Some(x) => x,
        None => {
            proof {
                assert forall|t: TemplateModel|
                    starts_at(buf@, pos as int, #[trigger] spec_ser_template(t)) implies false by {
                    lemma_template_parts(buf@, pos as int, t);
                }
            }
            return None;
        },
    };
    let counted = de_usize(buf, p1);
    let (count, p2) = match counted {
        Some(x) => x,
        None => {
            proof {
                assert forall|t: TemplateModel|
                    starts_at(buf@, pos as int, #[trigger] spec_ser_template(t)) implies false by {
                    lemma_template_parts(buf@, pos as int, t);
                    assert(prefix@ == t.prefix);
                }
            }
            return None;
        },
    };
    let listed = de_segments(buf, p2, count);
    match listed {
        Some((template, p3)) => {
            proof {
                assert forall|t: TemplateModel|
                    starts_at(
                        buf@,
                        pos as int,
                        #[trigger] spec_ser_template(t),
                    ) implies prefix@ == t.prefix && segments_model(template@) == t.segments && p3
                    == pos + spec_ser_template(t).len() by {
                    lemma_template_parts(buf@, pos as int, t);
                }
            }
            let t = NeuronTemplate::from_parts(prefix, template);
            proof {
                assert forall|m: TemplateModel|
                    starts_at(buf@, pos as int, #[trigger] spec_ser_template(m)) implies t@
                    == m by {
                    assert(t@ =~= m);
                }
            }
            Some((t, p3))
        },
        None => {
            proof {
                assert forall|t: TemplateModel|
                    starts_at(buf@, pos as int, #[trigger] spec_ser_template(t)) implies false by {
                    lemma_template_parts(buf@, pos as int, t);
                    assert(prefix@ == t.prefix);
                }
            }
            None
        },
    }
}

/// Where the pieces of a template stand, given the template stands.
proof fn lemma_template_parts(buf: Seq<u8>, pos: int, t: TemplateModel)
    requires
        starts_at(buf, pos, spec_ser_template(t)),
        buf.len() <= usize::MAX,
    ensures
        starts_at(buf, pos, spec_ser_string(t.prefix)),
        t.segments.len() <= usize::MAX,
        starts_at(
            buf,
            pos + spec_ser_string(t.prefix).len(),
            spec_ser_usize(t.segments.len() as usize),
        ),
        starts_at(
            buf,
            pos + spec_ser_string(t.prefix).len() + 8,
            spec_ser_segments_raw(t.segments),
        ),
        spec_ser_template(t).len() == spec_ser_string(t.prefix).len() + 8
            + spec_ser_segments_raw(t.segments).len(),
{
    lemma_ser_segments_raw_len(t.segments);
    let pfx = spec_ser_string(t.prefix);
    let cnt = spec_ser_u64(t.segments.len() as u64);
    let rest = spec_ser_segments_raw(t.segments);
    assert(spec_ser_template(t) =~= pfx + (cnt + rest));
    lemma_starts_at_concat(buf, pos, pfx, cnt + rest);
    lemma_starts_at_concat(buf, pos + pfx.len(), cnt, rest);
}


/// The bytes of the store's entries, without a count: each name with
/// its value, in insertion order.
pub open spec fn spec_ser_entries_raw(s: StoreModel) -> Seq<u8>
    decreases s.len(),
{
    if s.len() == 0 {
        Seq::empty()
    } else {
        spec_ser_string(s[0].0) + spec_ser_value(s[0].1) + spec_ser_entries_raw(s.drop_first())
    }
}

/// Each entry takes at least its name's count field.
pub proof fn lemma_ser_entries_raw_len(s: StoreModel)
    ensures
        spec_ser_entries_raw(s).len() >= s.len(),
    decreases s.len(),
{
    if s.len() > 0 {
        lemma_ser_entries_raw_len(s.drop_first());
    }
}

/// The bytes of a payload: its two dimensions, its template, and its
/// counted store entries.
pub open spec fn spec_ser_payload(m: PayloadModel) -> Seq<u8> {
    spec_ser_usize(m.num_layers) + spec_ser_usize(m.num_mlp_neurons) + spec_ser_template(
        m.template,
    ) + spec_ser_u64(m.store.len() as u64) + spec_ser_entries_raw(m.store)
}

/// Appends the store's entries from position `i` on.
fn ser_entries(out: &mut Vec<u8>, values: &Values, i: usize)
    requires
        i <= values@.len(),
    ensures
        final(out)@ == old(out)@ + spec_ser_entries_raw(values@.skip(i as int)),
    decreases values@.len() - i,
{
    let n = values.len();
    if i < n {
        let (name, value) = values.entry_at(i);
        ser_string(out, name.as_str());
        ser_value(out, value);
        ser_entries(out, values, i + 1);
        proof {
            assert(values@.skip(i as int).drop_first() =~= values@.skip(i + 1));
            assert(final(out)@ =~= old(out)@ + spec_ser_entries_raw(values@.skip(i as int)));
        }
    } else {
        proof {
            assert(values@.skip(i as int) =~= Seq::<(Seq<char>, ValueModel)>::empty());
        }
    }
}

/// Where the head entry's pieces stand, given the entries stand.
proof fn lemma_entries_head(buf: Seq<u8>, pos: int, s: StoreModel)
    requires
        s.len() > 0,
        starts_at(buf, pos, spec_ser_entries_raw(s)),
    ensures
        starts_at(buf, pos, spec_ser_string(s[0].0)),
        starts_at(buf, pos + spec_ser_string(s[0].0).len(), spec_ser_value(s[0].1)),
        starts_at(
            buf,
            pos + spec_ser_string(s[0].0).len() + spec_ser_value(s[0].1).len(),
            spec_ser_entries_raw(s.drop_first()),
        ),
        spec_ser_entries_raw(s).len() == spec_ser_string(s[0].0).len() + spec_ser_value(
            s[0].1,
        ).len() + spec_ser_entries_raw(s.drop_first()).len(),
{
    let nm = spec_ser_string(s[0].0);
    let vl = spec_ser_value(s[0].1);
    let rest = spec_ser_entries_raw(s.drop_first());
    assert(spec_ser_entries_raw(s) =~= nm + (vl + rest));
    lemma_starts_at_concat(buf, pos, nm, vl + rest);
    lemma_starts_at_concat(buf, pos + nm.len(), vl, rest);
}

/// Reads `count` store entries back; see [`spec_ser_entries_raw`].
/// Every value that comes back is well-formed, whatever the bytes.
fn de_entries(buf: &Vec<u8>, pos: usize, count: usize) -> (r: Option<
    (Vec<(String, Value)>, usize),
>)
    ensures
        forall|s: StoreModel|
            s.len() == count && (forall|i: int| 0 <= i < s.len() ==> (#[trigger] s[i].1).wf())
                && starts_at(buf@, pos as int, #[trigger] spec_ser_entries_raw(s)) ==> r is Some
                && crate::values::entries_model((r->0).0@) == s && (r->0).1 == pos
                + spec_ser_entries_raw(s).len(),
        r is Some ==> forall|i: int|
            0 <= i < (r->0).0@.len() ==> (#[trigger] (r->0).0@[i].1)@.wf(),
    decreases count,
{
    let buf_len = buf.len();
    if count == 0 {
        let out: Vec<(String, Value)> = Vec::new();
        proof {
            assert forall|s: StoreModel|
                s.len() == count && (forall|i: int| 0 <= i < s.len() ==> (#[trigger] s[i].1).wf())
                    && starts_at(
                    buf@,
                    pos as int,
                    #[trigger] spec_ser_entries_raw(s),
                ) implies crate::values::entries_model(out@) == s by {
                assert(crate::values::entries_model(out@) =~= s);
            }
        }
        return Some((out, pos));
    }
    let named = de_string(buf, pos);
    let (name, p1) = match named {
        Some(x) => x,
        None => {
            proof {
                assert forall|s: StoreModel|
                    s.len() == count && (forall|i: int|
                        0 <= i < s.len() ==> (#[trigger] s[i].1).wf()) && starts_at(
                        buf@,
                        pos as int,
                        #[trigger] spec_ser_entries_raw(s),
                    ) implies false by {
                    lemma_entries_head(buf@, pos as int, s);
                }
            }
            return None;
        },
    };
    let valued = de_value(buf, p1);
    let (value, p2) = match valued {
        Some(x) => x,
        None => {
            proof {
                assert forall|s: StoreModel|
                    s.len() == count && (forall|i: int|
                        0 <= i < s.len() ==> (#[trigger] s[i].1).wf()) && starts_at(
                        buf@,
                        pos as int,
                        #[trigger] spec_ser_entries_raw(s),
                    ) implies false by {
                    lemma_entries_head(buf@, pos as int, s);
                    assert(name@ == s[0].0);
                    assert(s[0].1.wf());
                }
            }
            return None;
        },
    };
    let tail = de_entries(buf, p2, count - 1);
    let (mut rest, p3) = match tail {
        Some(x) => x,
        None => {
            proof {
                assert forall|s: StoreModel|
                    s.len() == count && (forall|i: int|
                        0 <= i < s.len() ==> (#[trigger] s[i].1).wf()) && starts_at(
                        buf@,
                        pos as int,
                        #[trigger] spec_ser_entries_raw(s),
                    ) implies false by {
                    lemma_entries_head(buf@, pos as int, s);
                    assert(name@ == s[0].0);
                    assert(s[0].1.wf());
                    assert(value@ == s[0].1 && p2 == p1 + spec_ser_value(s[0].1).len());
                    assert(forall|i: int|
                        0 <= i < s.drop_first().len() ==> (#[trigger] s.drop_first()[i]) == s[i
                            + 1]);
                }
            }
            return None;
        },
    };
    let ghost tail_entries = rest@;
    let ghost name_view = name@;
    let ghost value_view = value@;
    rest.insert(0, (name, value));
    proof {
        assert forall|s: StoreModel|
            s.len() == count && (forall|i: int| 0 <= i < s.len() ==> (#[trigger] s[i].1).wf())
                && starts_at(
                buf@,
                pos as int,
                #[trigger] spec_ser_entries_raw(s),
            ) implies crate::values::entries_model(rest@) == s && p3 == pos
            + spec_ser_entries_raw(s).len() by {
            lemma_entries_head(buf@, pos as int, s);
            assert(name_view == s[0].0);
            assert(s[0].1.wf());
            assert(value_view == s[0].1 && p2 == p1 + spec_ser_value(s[0].1).len());
            assert(forall|i: int|
                0 <= i < s.drop_first().len() ==> (#[trigger] s.drop_first()[i]) == s[i + 1]);
            assert(crate::values::entries_model(tail_entries) == s.drop_first());
            assert forall|i: int|
                0 <= i < crate::values::entries_model(rest@).len() implies crate::values::entries_model(
                rest@,
            )[i] == s[i] by {
                if i == 0 {
                    assert(rest@[0].0@ == name_view && rest@[0].1@ == value_view);
                } else {
                    assert(rest@[i] == tail_entries[i - 1]);
                    assert(crate::values::entries_model(tail_entries)[i - 1] == (tail_entries[i
                        - 1].0@, tail_entries[i - 1].1@));
                }
            }
            assert(crate::values::entries_model(rest@) =~= s);
        }
        assert forall|i: int|
            0 <= i < rest@.len() implies (#[trigger] rest@[i].1)@.wf() by {
            if i > 0 {
                assert(rest@[i] == tail_entries[i - 1]);
            }
        }
    }
    Some((rest, p3))
}

/// Serializes a payload to opaque bytes; [`deserialize`] restores it.
pub fn serialize(payload: &Payload) -> (r: Vec<u8>)
    ensures
        r@ == spec_ser_payload(payload@),
        payload@.wf(),
{
    proof {
        use_type_invariant(payload);
    }
    let mut out: Vec<u8> = Vec::new();
    ser_usize(&mut out, payload.num_layers());
    ser_usize(&mut out, payload.num_mlp_neurons());
    ser_template(&mut out, payload.neuron_template());
    let values = payload.store();
    ser_u64(&mut out, values.len() as u64);
    ser_entries(&mut out, values, 0);
    proof {
        assert(payload@.store.skip(0) =~= payload@.store);
        assert(out@ =~= spec_ser_payload(payload@));
    }
    out
}

/// Where the pieces of a payload stand, given the payload stands.
proof fn lemma_payload_parts(buf: Seq<u8>, pos: int, m: PayloadModel)
    requires
        starts_at(buf, pos, spec_ser_payload(m)),
        buf.len() <= usize::MAX,
    ensures
        starts_at(buf, pos, spec_ser_usize(m.num_layers)),
        starts_at(buf, pos + 8, spec_ser_usize(m.num_mlp_neurons)),
        starts_at(buf, pos + 16, spec_ser_template(m.template)),
        m.store.len() <= usize::MAX,
        starts_at(
            buf,
            pos + 16 + spec_ser_template(m.template).len(),
            spec_ser_usize(m.store.len() as usize),
        ),
        starts_at(
            buf,
            pos + 24 + spec_ser_template(m.template).len(),
            spec_ser_entries_raw(m.store),
        ),
{
    lemma_ser_entries_raw_len(m.store);
    let a = spec_ser_usize(m.num_layers);
    let b = spec_ser_usize(m.num_mlp_neurons);
    let c = spec_ser_template(m.template);
    let d = spec_ser_u64(m.store.len() as u64);
    let e = spec_ser_entries_raw(m.store);
    assert(spec_ser_payload(m) =~= a + (b + (c + (d + e))));
    lemma_starts_at_concat(buf, pos, a, b + (c + (d + e)));
    lemma_starts_at_concat(buf, pos + 8, b, c + (d + e));
    lemma_starts_at_concat(buf, pos + 16, c, d + e);
    lemma_starts_at_concat(buf, pos + 16 + c.len(), d, e);
}

/// Restores a payload from bytes [`serialize`] produced: the result
/// reproduces every dimension, the template, and each stored value —
/// name, scope, shape and contents — exactly. Bytes that do not carry a
/// well-formed payload in this layout yield `None`; whatever comes back
/// has passed the same name, shape and validation checks a built
/// payload passes.
#[verifier::loop_isolation(false)]
#[verifier::rlimit(100)]
pub fn deserialize(bytes: &Vec<u8>) -> (r: Option<Payload>)
    ensures
        forall|m: PayloadModel|
            m.wf() && bytes@ == #[trigger] spec_ser_payload(m) ==> r is Some && r->0@ == m,
{
    let buf_len = bytes.len();
    proof {
        assert forall|m: PayloadModel|
            m.wf() && bytes@ == #[trigger] spec_ser_payload(m) implies starts_at(
            bytes@,
            0,
            spec_ser_payload(m),
        ) by {
            assert(bytes@.subrange(0, spec_ser_payload(m).len() as int) =~= spec_ser_payload(m));
        }
    }
    let layered = de_usize(bytes, 0);
    let (num_layers, p1) = match layered {
        Some(x) => x,
        None => {
            proof {
                assert forall|m: PayloadModel|
                    m.wf() && bytes@ == #[trigger] spec_ser_payload(m) implies false by {
                    lemma_payload_parts(bytes@, 0, m);
                }
            }
            return None;
        },
    };
    let neuroned = de_usize(bytes, p1);
    let (num_mlp_neurons, p2) = match neuroned {
        Some(x) => x,
        None => {
            proof {
                assert forall|m: PayloadModel|
                    m.wf() && bytes@ == #[trigger] spec_ser_payload(m) implies false by {
                    lemma_payload_parts(bytes@, 0, m);
                }
            }
            return None;
        },
    };
    let templated = de_template(bytes, p2);
    let (template, p3) = match templated {
        Some(x) => x,
        None => {
            proof {
                assert forall|m: PayloadModel|
                    m.wf() && bytes@ == #[trigger] spec_ser_payload(m) implies false by {
                    lemma_payload_parts(bytes@, 0, m);
                }
            }
            return None;
        },
    };
    let counted = de_usize(bytes, p3);
    let (count, p4) = match counted {
        Some(x) => x,
        None => {
            proof {
                assert forall|m: PayloadModel|
                    m.wf() && bytes@ == #[trigger] spec_ser_payload(m) implies false by {
                    lemma_payload_parts(bytes@, 0, m);
                    assert(template@ == m.template && p3 == 16 + spec_ser_template(
                        m.template,
                    ).len());
                }
            }
            return None;
        },
    };
    let entried = de_entries(bytes, p4, count);
    let entries = match entried {
        Some((entries, _)) => entries,
        None => {
            proof {
                assert forall|m: PayloadModel|
                    m.wf() && bytes@ == #[trigger] spec_ser_payload(m) implies false by {
                    lemma_payload_parts(bytes@, 0, m);
                    assert(template@ == m.template && p3 == 16 + spec_ser_template(
                        m.template,
                    ).len());
                    assert(count == m.store.len());
                }
            }
            return None;
        },
    };
    let ghost decoded_entries = entries@;
    // Any bytes may arrive here, so the store invariants are checked
    // anew: unique names, dimensions that agree, then the validation
    // protocol inside the payload constructor.
    let mut values = Values::new();
    let mut entries = entries;
    let n = entries.len();
    let mut i: usize = 0;
    while i < n
        invariant
            0 <= i <= n,
            n == decoded_entries.len(),
            entries@ == decoded_entries.skip(i as int),
            values@ == crate::values::entries_model(decoded_entries.take(i as int)),
            crate::values::store_wf(values@),
            crate::values::store_dims_ok(values@, num_layers, num_mlp_neurons),
            forall|j: int|
                0 <= j < decoded_entries.len() ==> (#[trigger] decoded_entries[j].1)@.wf(),
        decreases n - i,
    {
        let (name, value) = entries.remove(0);
        proof {
            assert(entries@ =~= decoded_entries.skip(i + 1));
            assert((name, value) == decoded_entries[i as int]);
        }
        if values.contains_key(name.as_str()) {
            proof {
                let k = crate::values::lemma_store_get_index(values@, name@);
                let dm = crate::values::entries_model(decoded_entries);
                assert(dm[k].0 == name@ && dm[i as int].0 == name@ && k < i);
                assert forall|m: PayloadModel|
                    m.wf() && bytes@ == #[trigger] spec_ser_payload(m) implies false by {
                    lemma_payload_parts(bytes@, 0, m);
                    assert(template@ == m.template);
                    assert(count == m.store.len());
                    assert(dm == m.store);
                    assert(crate::values::store_wf(m.store));
                }
            }
            return None;
        }
        if !crate::payload_builder::dims_check(&value, num_layers, num_mlp_neurons) {
            proof {
                let dm = crate::values::entries_model(decoded_entries);
                assert(dm[i as int].1 == value@);
                assert forall|m: PayloadModel|
                    m.wf() && bytes@ == #[trigger] spec_ser_payload(m) implies false by {
                    lemma_payload_parts(bytes@, 0, m);
                    assert(template@ == m.template);
                    assert(count == m.store.len());
                    assert(dm == m.store);
                    assert(m.num_layers == num_layers && m.num_mlp_neurons == num_mlp_neurons);
                    assert(m.store[i as int].1.dims_ok(num_layers, num_mlp_neurons));
                }
            }
            return None;
        }
        let ghost old_store = values@;
        let ghost name_view = name@;
        let ghost value_view = value@;
        values.insert(name, value);
        proof {
            crate::values::lemma_store_get_none(old_store, name_view);
            assert(values@ =~= crate::values::entries_model(decoded_entries.take(i + 1)));
            assert forall|a: int, b: int|
                0 <= a < b < values@.len() implies (#[trigger] values@[a].0) != (
            #[trigger] values@[b].0) by {
                if b == values@.len() - 1 {
                    assert(values@[a] == old_store[a]);
                }
            }
            assert(crate::values::store_wf(values@));
        }
        i = i + 1;
    }
    proof {
        assert(decoded_entries.take(n as int) =~= decoded_entries);
    }
    let built = Payload::new(num_layers, num_mlp_neurons, template, values);
    match built {
        Ok(p) => {
            proof {
                assert forall|m: PayloadModel|
                    m.wf() && bytes@ == #[trigger] spec_ser_payload(m) implies p@ == m by {
                    lemma_payload_parts(bytes@, 0, m);
                    assert(template@ == m.template && p3 == 16 + spec_ser_template(
                        m.template,
                    ).len());
                    assert(count == m.store.len());
                    assert(crate::values::entries_model(decoded_entries) == m.store);
                    assert(p@ =~= m);
                }
            }
            Some(p)
        },
        Err(_) => {
            proof {
                assert forall|m: PayloadModel|
                    m.wf() && bytes@ == #[trigger] spec_ser_payload(m) implies false by {
                    lemma_payload_parts(bytes@, 0, m);
                    assert(template@ == m.template && p3 == 16 + spec_ser_template(
                        m.template,
                    ).len());
                    assert(count == m.store.len());
                    assert(crate::values::entries_model(decoded_entries) == m.store);
                }
            }
            None
        },
    }
}

} // verus!
