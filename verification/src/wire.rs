//! Byte-level primitives shared by the encodings: little-endian integers,
//! length-prefixed UTF-8 strings, presence markers and field tags.
//!
//! Every decoder carries two guarantees. Soundness: a decoded value
//! re-encodes to exactly the bytes consumed. Completeness: if the buffer
//! holds the encoding of some value at `pos`, the decoder returns that
//! value and consumes exactly its encoding. Together they make
//! decode-after-encode the identity.

use crate::error::{DecodeError, EncodeError};
use vstd::prelude::*;
use vstd::slice::{slice_index_get, slice_subrange};
use vstd::utf8::{decode_utf8, encode_utf8, valid_utf8};

verus! {

broadcast use {
    vstd::utf8::encode_utf8_valid_utf8,
    vstd::utf8::encode_utf8_decode_utf8,
    vstd::utf8::decode_utf8_encode_utf8,
};

/// `piece` occurs in `data` starting at `pos`.
pub open spec fn starts_with(data: Seq<u8>, pos: int, piece: Seq<u8>) -> bool {
    &&& 0 <= pos
    &&& pos + piece.len() <= data.len()
    &&& data.subrange(pos, pos + piece.len()) == piece
}

/// Splitting an occurrence of `a + b` at `pos` gives an occurrence of `a`
/// at `pos` and one of `b` right after it.
pub proof fn lemma_starts_with_concat(data: Seq<u8>, pos: int, a: Seq<u8>, b: Seq<u8>)
    requires
        starts_with(data, pos, a + b),
    ensures
        starts_with(data, pos, a),
        starts_with(data, pos + a.len(), b),
{
    let whole = data.subrange(pos, pos + a.len() + b.len());
    assert(data.subrange(pos, pos + a.len()) =~= a) by {
        assert forall|i: int| 0 <= i < a.len() implies data.subrange(pos, pos + a.len())[i]
            == a[i] by {
            assert(whole[i] == (a + b)[i]);
        }
    }
    assert(data.subrange(pos + a.len(), pos + a.len() + b.len()) =~= b) by {
        assert forall|i: int| 0 <= i < b.len() implies data.subrange(
            pos + a.len(),
            pos + a.len() + b.len(),
        )[i] == b[i] by {
            assert(whole[a.len() + i] == (a + b)[a.len() + i]);
        }
    }
}

/// The converse: occurrences of `a` at `pos` and of `b` right after it
/// join to an occurrence of `a + b`.
pub proof fn lemma_starts_with_join(data: Seq<u8>, pos: int, a: Seq<u8>, b: Seq<u8>)
    requires
        starts_with(data, pos, a),
        starts_with(data, pos + a.len(), b),
    ensures
        starts_with(data, pos, a + b),
{
    assert(data.subrange(pos, pos + (a + b).len()) =~= a + b) by {
        assert forall|i: int| 0 <= i < a.len() + b.len() implies data.subrange(
            pos,
            pos + (a + b).len(),
        )[i] == (a + b)[i] by {
            if i < a.len() {
                assert(data.subrange(pos, pos + a.len())[i] == a[i]);
            } else {
                assert(data.subrange(pos + a.len(), pos + a.len() + b.len())[i - a.len()]
                    == b[i - a.len()]);
            }
        }
    }
}

pub open spec fn enc_u8(v: u8) -> Seq<u8> {
    seq![v]
}

pub open spec fn enc_u16(v: u16) -> Seq<u8> {
    seq![v as u8, (v >> 8) as u8]
}

pub open spec fn enc_u32(v: u32) -> Seq<u8> {
    seq![v as u8, (v >> 8) as u8, (v >> 16) as u8, (v >> 24) as u8]
}

pub open spec fn enc_u64(v: u64) -> Seq<u8> {
    seq![
        v as u8,
        (v >> 8) as u8,
        (v >> 16) as u8,
        (v >> 24) as u8,
        (v >> 32) as u8,
        (v >> 40) as u8,
        (v >> 48) as u8,
        (v >> 56) as u8,
    ]
}

/// Signed values travel as their two's-complement bits.
pub open spec fn enc_i64(v: i64) -> Seq<u8> {
    enc_u64(v as u64)
}

/// A string: 32-bit byte count, then its UTF-8 bytes.
pub open spec fn enc_str(s: Seq<char>) -> Seq<u8> {
    enc_u32(encode_utf8(s).len() as u32) + encode_utf8(s)
}

/// An optional string: a presence marker, then the string if present.
pub open spec fn enc_opt_str(o: Option<Seq<char>>) -> Seq<u8> {
    match o {
        None => seq![0u8],
        Some(s) => seq![1u8] + enc_str(s),
    }
}

/// An optional timestamp: a presence marker, then the value if present.
pub open spec fn enc_opt_i64(o: Option<i64>) -> Seq<u8> {
    match o {
        None => seq![0u8],
        Some(v) => seq![1u8] + enc_i64(v),
    }
}

/// What the self-describing encoding puts before a field: its tag byte.
/// The binary-stable encoding writes fields back to back, with no tag.
pub open spec fn tag_of(tagged: bool, tag: u8) -> Seq<u8> {
    if tagged {
        seq![tag]
    } else {
        seq![]
    }
}

proof fn lemma_u16_split(v: u16)
    by (bit_vector)
    ensures
        (v as u8) as u16 | (((v >> 8) as u8) as u16) << 8 == v,
{
}

proof fn lemma_u16_join(b0: u8, b1: u8)
    by (bit_vector)
    ensures
        (b0 as u16 | (b1 as u16) << 8) as u8 == b0,
        ((b0 as u16 | (b1 as u16) << 8) >> 8) as u8 == b1,
{
}

proof fn lemma_u32_split(v: u32)
    by (bit_vector)
    ensures
        (v as u8) as u32 | (((v >> 8) as u8) as u32) << 8 | (((v >> 16) as u8) as u32) << 16 | (((v
            >> 24) as u8) as u32) << 24 == v,
{
}

proof fn lemma_u32_join(b0: u8, b1: u8, b2: u8, b3: u8)
    by (bit_vector)
    ensures
        (b0 as u32 | (b1 as u32) << 8 | (b2 as u32) << 16 | (b3 as u32) << 24) as u8 == b0,
        ((b0 as u32 | (b1 as u32) << 8 | (b2 as u32) << 16 | (b3 as u32) << 24) >> 8) as u8 == b1,
        ((b0 as u32 | (b1 as u32) << 8 | (b2 as u32) << 16 | (b3 as u32) << 24) >> 16) as u8 == b2,
        ((b0 as u32 | (b1 as u32) << 8 | (b2 as u32) << 16 | (b3 as u32) << 24) >> 24) as u8 == b3,
{
}

proof fn lemma_u64_split(v: u64)
    by (bit_vector)
    ensures
        (v as u8) as u64 | (((v >> 8) as u8) as u64) << 8 | (((v >> 16) as u8) as u64) << 16 | (((v
            >> 24) as u8) as u64) << 24 | (((v >> 32) as u8) as u64) << 32 | (((v
            >> 40) as u8) as u64) << 40 | (((v >> 48) as u8) as u64) << 48 | (((v
            >> 56) as u8) as u64) << 56 == v,
{
}

proof fn lemma_u64_join(b0: u8, b1: u8, b2: u8, b3: u8, b4: u8, b5: u8, b6: u8, b7: u8)
    by (bit_vector)
    ensures
        (b0 as u64 | (b1 as u64) << 8 | (b2 as u64) << 16 | (b3 as u64) << 24 | (b4 as u64) << 32
            | (b5 as u64) << 40 | (b6 as u64) << 48 | (b7 as u64) << 56) as u8 == b0,
        ((b0 as u64 | (b1 as u64) << 8 | (b2 as u64) << 16 | (b3 as u64) << 24 | (b4 as u64) << 32
            | (b5 as u64) << 40 | (b6 as u64) << 48 | (b7 as u64) << 56) >> 8) as u8 == b1,
        ((b0 as u64 | (b1 as u64) << 8 | (b2 as u64) << 16 | (b3 as u64) << 24 | (b4 as u64) << 32
            | (b5 as u64) << 40 | (b6 as u64) << 48 | (b7 as u64) << 56) >> 16) as u8 == b2,
        ((b0 as u64 | (b1 as u64) << 8 | (b2 as u64) << 16 | (b3 as u64) << 24 | (b4 as u64) << 32
            | (b5 as u64) << 40 | (b6 as u64) << 48 | (b7 as u64) << 56) >> 24) as u8 == b3,
        ((b0 as u64 | (b1 as u64) << 8 | (b2 as u64) << 16 | (b3 as u64) << 24 | (b4 as u64) << 32
            | (b5 as u64) << 40 | (b6 as u64) << 48 | (b7 as u64) << 56) >> 32) as u8 == b4,
        ((b0 as u64 | (b1 as u64) << 8 | (b2 as u64) << 16 | (b3 as u64) << 24 | (b4 as u64) << 32
            | (b5 as u64) << 40 | (b6 as u64) << 48 | (b7 as u64) << 56) >> 40) as u8 == b5,
        ((b0 as u64 | (b1 as u64) << 8 | (b2 as u64) << 16 | (b3 as u64) << 24 | (b4 as u64) << 32
            | (b5 as u64) << 40 | (b6 as u64) << 48 | (b7 as u64) << 56) >> 48) as u8 == b6,
        ((b0 as u64 | (b1 as u64) << 8 | (b2 as u64) << 16 | (b3 as u64) << 24 | (b4 as u64) << 32
            | (b5 as u64) << 40 | (b6 as u64) << 48 | (b7 as u64) << 56) >> 56) as u8 == b7,
{
}

proof fn lemma_i64_u64_cast(v: i64, w: i64)
    by (bit_vector)
    requires
        v as u64 == w as u64,
    ensures
        v == w,
{
}

pub fn encode_u8(v: u8, out: &mut Vec<u8>)
    ensures
        final(out)@ == old(out)@ + enc_u8(v),
{
    out.push(v);
    proof {
        assert(out@ =~= old(out)@ + enc_u8(v));
    }
}

pub fn encode_u16(v: u16, out: &mut Vec<u8>)
    ensures
        final(out)@ == old(out)@ + enc_u16(v),
{
    out.push(#[verifier::truncate] (v as u8));
    out.push(#[verifier::truncate] ((v >> 8) as u8));
    proof {
        assert(out@ =~= old(out)@ + enc_u16(v));
    }
}

pub fn encode_u32(v: u32, out: &mut Vec<u8>)
    ensures
        final(out)@ == old(out)@ + enc_u32(v),
{
    out.push(#[verifier::truncate] (v as u8));
    out.push(#[verifier::truncate] ((v >> 8) as u8));
    out.push(#[verifier::truncate] ((v >> 16) as u8));
    out.push(#[verifier::truncate] ((v >> 24) as u8));
    proof {
        assert(out@ =~= old(out)@ + enc_u32(v));
    }
}

pub fn encode_u64(v: u64, out: &mut Vec<u8>)
    ensures
        final(out)@ == old(out)@ + enc_u64(v),
{
    out.push(#[verifier::truncate] (v as u8));
    out.push(#[verifier::truncate] ((v >> 8) as u8));
    out.push(#[verifier::truncate] ((v >> 16) as u8));
    out.push(#[verifier::truncate] ((v >> 24) as u8));
    out.push(#[verifier::truncate] ((v >> 32) as u8));
    out.push(#[verifier::truncate] ((v >> 40) as u8));
    out.push(#[verifier::truncate] ((v >> 48) as u8));
    out.push(#[verifier::truncate] ((v >> 56) as u8));
    proof {
        assert(out@ =~= old(out)@ + enc_u64(v));
    }
}

pub fn encode_i64(v: i64, out: &mut Vec<u8>)
    ensures
        final(out)@ == old(out)@ + enc_i64(v),
{
    encode_u64(#[verifier::truncate] (v as u64), out);
}

pub fn decode_u8(data: &[u8], pos: usize) -> (r: Result<(u8, usize), DecodeError>)
    ensures
        (match r {
            Ok((v, end)) => end == pos + 1 && starts_with(data@, pos as int, enc_u8(v)),
            Err(e) => pos + 1 > data@.len() && e == (DecodeError::Truncated { offset: pos }),
        }),
        forall|w: u8|
            starts_with(data@, pos as int, enc_u8(w)) ==> (r matches Ok(p) && p.0 == w && p.1 == pos
                + 1),
{
    if pos >= data.len() {
        return Err(DecodeError::Truncated { offset: pos });
    }
    let b = *slice_index_get(data, pos);
    proof {
        assert forall|w: u8| starts_with(data@, pos as int, enc_u8(w)) implies b == w by {
            assert(data@.subrange(pos as int, pos + 1)[0] == w);
        }
        assert(data@.subrange(pos as int, pos + 1) =~= enc_u8(b));
    }
    Ok((b, pos + 1))
}

pub fn decode_u16(data: &[u8], pos: usize) -> (r: Result<(u16, usize), DecodeError>)
    ensures
        (match r {
            Ok((v, end)) => end == pos + 2 && starts_with(data@, pos as int, enc_u16(v)),
            Err(e) => pos + 2 > data@.len() && e == (DecodeError::Truncated { offset: pos }),
        }),
        forall|w: u16|
            starts_with(data@, pos as int, enc_u16(w)) ==> (r matches Ok(p) && p.0 == w && p.1
                == pos + 2),
{
    if data.len() < 2 || pos > data.len() - 2 {
        return Err(DecodeError::Truncated { offset: pos });
    }
    let b0 = *slice_index_get(data, pos);
    let b1 = *slice_index_get(data, pos + 1);
    let v = b0 as u16 | (b1 as u16) << 8;
    proof {
        lemma_u16_join(b0, b1);
        assert(data@.subrange(pos as int, pos + 2) =~= enc_u16(v));
        assert forall|w: u16| starts_with(data@, pos as int, enc_u16(w)) implies v == w by {
            assert(data@.subrange(pos as int, pos + 2)[0] == w as u8);
            assert(data@.subrange(pos as int, pos + 2)[1] == (w >> 8) as u8);
            lemma_u16_split(w);
        }
    }
    Ok((v, pos + 2))
}

pub fn decode_u32(data: &[u8], pos: usize) -> (r: Result<(u32, usize), DecodeError>)
    ensures
        (match r {
            Ok((v, end)) => end == pos + 4 && starts_with(data@, pos as int, enc_u32(v)),
            Err(e) => pos + 4 > data@.len() && e == (DecodeError::Truncated { offset: pos }),
        }),
        forall|w: u32|
            starts_with(data@, pos as int, enc_u32(w)) ==> (r matches Ok(p) && p.0 == w && p.1
                == pos + 4),
{
    if data.len() < 4 || pos > data.len() - 4 {
        return Err(DecodeError::Truncated { offset: pos });
    }
    let b0 = *slice_index_get(data, pos);
    let b1 = *slice_index_get(data, pos + 1);
    let b2 = *slice_index_get(data, pos + 2);
    let b3 = *slice_index_get(data, pos + 3);
    let v = b0 as u32 | (b1 as u32) << 8 | (b2 as u32) << 16 | (b3 as u32) << 24;
    proof {
        lemma_u32_join(b0, b1, b2, b3);
        assert(data@.subrange(pos as int, pos + 4) =~= enc_u32(v));
        assert forall|w: u32| starts_with(data@, pos as int, enc_u32(w)) implies v == w by {
            assert(data@.subrange(pos as int, pos + 4)[0] == w as u8);
            assert(data@.subrange(pos as int, pos + 4)[1] == (w >> 8) as u8);
            assert(data@.subrange(pos as int, pos + 4)[2] == (w >> 16) as u8);
            assert(data@.subrange(pos as int, pos + 4)[3] == (w >> 24) as u8);
            lemma_u32_split(w);
        }
    }
    Ok((v, pos + 4))
}

pub fn decode_u64(data: &[u8], pos: usize) -> (r: Result<(u64, usize), DecodeError>)
    ensures
        (match r {
            Ok((v, end)) => end == pos + 8 && starts_with(data@, pos as int, enc_u64(v)),
            Err(e) => pos + 8 > data@.len() && e == (DecodeError::Truncated { offset: pos }),
        }),
        forall|w: u64|
            starts_with(data@, pos as int, enc_u64(w)) ==> (r matches Ok(p) && p.0 == w && p.1
                == pos + 8),
{
    if data.len() < 8 || pos > data.len() - 8 {
        return Err(DecodeError::Truncated { offset: pos });
    }
    let b0 = *slice_index_get(data, pos);
    let b1 = *slice_index_get(data, pos + 1);
    let b2 = *slice_index_get(data, pos + 2);
    let b3 = *slice_index_get(data, pos + 3);
    let b4 = *slice_index_get(data, pos + 4);
    let b5 = *slice_index_get(data, pos + 5);
    let b6 = *slice_index_get(data, pos + 6);
    let b7 = *slice_index_get(data, pos + 7);
    let v = b0 as u64 | (b1 as u64) << 8 | (b2 as u64) << 16 | (b3 as u64) << 24 | (b4 as u64)
        << 32 | (b5 as u64) << 40 | (b6 as u64) << 48 | (b7 as u64) << 56;
    proof {
        lemma_u64_join(b0, b1, b2, b3, b4, b5, b6, b7);
        assert(data@.subrange(pos as int, pos + 8) =~= enc_u64(v));
        assert forall|w: u64| starts_with(data@, pos as int, enc_u64(w)) implies v == w by {
            assert(data@.subrange(pos as int, pos + 8)[0] == w as u8);
            assert(data@.subrange(pos as int, pos + 8)[1] == (w >> 8) as u8);
            assert(data@.subrange(pos as int, pos + 8)[2] == (w >> 16) as u8);
            assert(data@.subrange(pos as int, pos + 8)[3] == (w >> 24) as u8);
            assert(data@.subrange(pos as int, pos + 8)[4] == (w >> 32) as u8);
            assert(data@.subrange(pos as int, pos + 8)[5] == (w >> 40) as u8);
            assert(data@.subrange(pos as int, pos + 8)[6] == (w >> 48) as u8);
            assert(data@.subrange(pos as int, pos + 8)[7] == (w >> 56) as u8);
            lemma_u64_split(w);
        }
    }
    Ok((v, pos + 8))
}

pub fn decode_i64(data: &[u8], pos: usize) -> (r: Result<(i64, usize), DecodeError>)
    ensures
        (match r {
            Ok((v, end)) => end == pos + 8 && starts_with(data@, pos as int, enc_i64(v)),
            Err(e) => pos + 8 > data@.len() && e == (DecodeError::Truncated { offset: pos }),
        }),
        forall|w: i64|
            starts_with(data@, pos as int, enc_i64(w)) ==> (r matches Ok(p) && p.0 == w && p.1
                == pos + 8),
{
    match decode_u64(data, pos) {
        Err(e) => Err(e),
        Ok((u, end)) => {
            let v = #[verifier::truncate] (u as i64);
            proof {
                assert(v as u64 == u) by (bit_vector)
                    requires
                        v == u as i64,
                ;
                assert forall|w: i64| starts_with(data@, pos as int, enc_i64(w)) implies v
                    == w by {
                    lemma_i64_u64_cast(v, w);
                }
            }
            Ok((v, end))
        },
    }
}

/// Writes the field's tag byte in the self-describing encoding; writes
/// nothing in the binary-stable one.
pub fn encode_tag(tagged: bool, tag: u8, out: &mut Vec<u8>)
    ensures
        final(out)@ == old(out)@ + tag_of(tagged, tag),
{
    if tagged {
        out.push(tag);
    }
    proof {
        assert(out@ =~= old(out)@ + tag_of(tagged, tag));
    }
}

/// In the self-describing encoding, checks that the expected field tag
/// stands at `pos`; in the binary-stable one, consumes nothing.
pub fn expect_tag(tagged: bool, tag: u8, data: &[u8], pos: usize) -> (r: Result<
    usize,
    DecodeError,
>)
    ensures
        (match r {
            Ok(end) => end == pos + tag_of(tagged, tag).len() && starts_with(
                data@,
                pos as int,
                tag_of(tagged, tag),
            ),
            Err(_) => !starts_with(data@, pos as int, tag_of(tagged, tag)) || pos > data@.len(),
        }),
        starts_with(data@, pos as int, tag_of(tagged, tag)) && pos <= data@.len() ==> (r matches Ok(
            end,
        ) && end == pos + tag_of(tagged, tag).len()),
{
    if !tagged {
        if pos > data.len() {
            return Err(DecodeError::Truncated { offset: pos });
        }
        proof {
            assert(data@.subrange(pos as int, pos as int) =~= tag_of(tagged, tag));
        }
        return Ok(pos);
    }
    if pos >= data.len() {
        return Err(DecodeError::Truncated { offset: pos });
    }
    let b = *slice_index_get(data, pos);
    if b != tag {
        proof {
            assert(starts_with(data@, pos as int, tag_of(tagged, tag)) ==> data@.subrange(
                pos as int,
                pos + 1,
            )[0] == tag);
        }
        return Err(DecodeError::FieldTag { offset: pos });
    }
    proof {
        assert(data@.subrange(pos as int, pos + 1) =~= tag_of(tagged, tag));
    }
    Ok(pos + 1)
}

/// Appends `enc_opt_str` of the optional string.
pub fn encode_opt_str(o: &Option<String>, out: &mut Vec<u8>) -> (r: Result<(), EncodeError>)
    ensures
        (match r {
            Ok(_) => crate::model::opt_str_fits(o.deep_view()) && final(out)@ == old(out)@
                + enc_opt_str(o.deep_view()),
            Err(e) => !crate::model::opt_str_fits(o.deep_view()) && e == EncodeError::TooLong,
        }),
{
    match o {
        None => {
            encode_u8(0, out);
            proof {
                assert(out@ =~= old(out)@ + enc_opt_str(o.deep_view()));
            }
            Ok(())
        },
        Some(s) => {
            encode_u8(1, out);
            match encode_str(s.as_str(), out) {
                Ok(_) => {
                    proof {
                        assert(out@ =~= old(out)@ + enc_opt_str(o.deep_view()));
                    }
                    Ok(())
                },
                Err(e) => Err(e),
            }
        },
    }
}

pub fn decode_opt_str(data: &[u8], pos: usize) -> (r: Result<(Option<String>, usize), DecodeError>)
    ensures
        (match r {
            Ok((o, end)) => crate::model::opt_str_fits(o.deep_view()) && end == pos + enc_opt_str(
                o.deep_view(),
            ).len() && starts_with(data@, pos as int, enc_opt_str(o.deep_view())),
            Err(_) => true,
        }),
        forall|w: Option<Seq<char>>|
            crate::model::opt_str_fits(w) && starts_with(data@, pos as int, enc_opt_str(w)) ==> (r
                matches Ok(p) && p.0.deep_view() == w && p.1 == pos + enc_opt_str(w).len()),
{
    let (marker, body) = match decode_u8(data, pos) {
        Ok(p) => p,
        Err(e) => {
            proof {
                assert forall|w: Option<Seq<char>>|
                    crate::model::opt_str_fits(w) && starts_with(
                        data@,
                        pos as int,
                        enc_opt_str(w),
                    ) implies false by {
                    match w {
                        None => {
                            assert(starts_with(data@, pos as int, enc_u8(0)));
                        },
                        Some(s) => {
                            lemma_starts_with_concat(data@, pos as int, seq![1u8], enc_str(s));
                            assert(starts_with(data@, pos as int, enc_u8(1)));
                        },
                    }
                }
            }
            return Err(e);
        },
    };
    if marker == 0 {
        proof {
            assert(starts_with(data@, pos as int, enc_u8(marker)));
            assert(data@.subrange(pos as int, pos + 1) =~= enc_opt_str(
                None::<Seq<char>>,
            ));
            assert forall|w: Option<Seq<char>>|
                crate::model::opt_str_fits(w) && starts_with(
                    data@,
                    pos as int,
                    enc_opt_str(w),
                ) implies w is None by {
                if let Some(s) = w {
                    lemma_starts_with_concat(data@, pos as int, seq![1u8], enc_str(s));
                    assert(starts_with(data@, pos as int, enc_u8(1)));
                }
            }
        }
        return Ok((None, body));
    }
    if marker != 1 {
        proof {
            assert forall|w: Option<Seq<char>>|
                crate::model::opt_str_fits(w) && starts_with(
                    data@,
                    pos as int,
                    enc_opt_str(w),
                ) implies false by {
                match w {
                    None => {
                        assert(starts_with(data@, pos as int, enc_u8(0)));
                    },
                    Some(s) => {
                        lemma_starts_with_concat(data@, pos as int, seq![1u8], enc_str(s));
                        assert(starts_with(data@, pos as int, enc_u8(1)));
                    },
                }
            }
        }
        return Err(DecodeError::Discriminant { offset: pos });
    }
    match decode_str(data, body) {
        Ok((s, end)) => {
            proof {
                assert(starts_with(data@, pos as int, enc_u8(1)));
                lemma_starts_with_join(data@, pos as int, seq![1u8], enc_str(s@));
                assert(seq![1u8] + enc_str(s@) == enc_opt_str(Some(s@)));
                assert forall|w: Option<Seq<char>>|
                    crate::model::opt_str_fits(w) && starts_with(
                        data@,
                        pos as int,
                        enc_opt_str(w),
                    ) implies (Some(s).deep_view() == w && pos + enc_opt_str(w).len()
                    == end) by {
                    match w {
                        None => {
                            assert(starts_with(data@, pos as int, enc_u8(0)));
                        },
                        Some(ws) => {
                            lemma_starts_with_concat(data@, pos as int, seq![1u8], enc_str(ws));
                        },
                    }
                }
            }
            Ok((Some(s), end))
        },
        Err(e) => {
            proof {
                assert forall|w: Option<Seq<char>>|
                    crate::model::opt_str_fits(w) && starts_with(
                        data@,
                        pos as int,
                        enc_opt_str(w),
                    ) implies false by {
                    match w {
                        None => {
                            assert(starts_with(data@, pos as int, enc_u8(0)));
                        },
                        Some(ws) => {
                            lemma_starts_with_concat(data@, pos as int, seq![1u8], enc_str(ws));
                        },
                    }
                }
            }
            Err(e)
        },
    }
}

/// Appends `enc_opt_i64` of the optional timestamp.
pub fn encode_opt_i64(o: &Option<i64>, out: &mut Vec<u8>)
    ensures
        final(out)@ == old(out)@ + enc_opt_i64(o.deep_view()),
{
    match o {
        None => {
            encode_u8(0, out);
        },
        Some(v) => {
            encode_u8(1, out);
            encode_i64(*v, out);
        },
    }
    proof {
        assert(out@ =~= old(out)@ + enc_opt_i64(o.deep_view()));
    }
}

pub fn decode_opt_i64(data: &[u8], pos: usize) -> (r: Result<(Option<i64>, usize), DecodeError>)
    ensures
        (match r {
            Ok((o, end)) => end == pos + enc_opt_i64(o.deep_view()).len() && starts_with(
                data@,
                pos as int,
                enc_opt_i64(o.deep_view()),
            ),
            Err(_) => true,
        }),
        forall|w: Option<i64>|
            starts_with(data@, pos as int, enc_opt_i64(w)) ==> (r matches Ok(p) && p.0.deep_view()
                == w && p.1 == pos + enc_opt_i64(w).len()),
{
    let (marker, body) = match decode_u8(data, pos) {
        Ok(p) => p,
        Err(e) => {
            proof {
                assert forall|w: Option<i64>|
                    starts_with(data@, pos as int, enc_opt_i64(w)) implies false by {
                    match w {
                        None => {
                            assert(starts_with(data@, pos as int, enc_u8(0)));
                        },
                        Some(v) => {
                            lemma_starts_with_concat(data@, pos as int, seq![1u8], enc_i64(v));
                            assert(starts_with(data@, pos as int, enc_u8(1)));
                        },
                    }
                }
            }
            return Err(e);
        },
    };
    if marker == 0 {
        proof {
            assert(starts_with(data@, pos as int, enc_u8(marker)));
            assert(data@.subrange(pos as int, pos + 1) =~= enc_opt_i64(None::<i64>));
            assert forall|w: Option<i64>|
                starts_with(data@, pos as int, enc_opt_i64(w)) implies w is None by {
                if let Some(v) = w {
                    lemma_starts_with_concat(data@, pos as int, seq![1u8], enc_i64(v));
                    assert(starts_with(data@, pos as int, enc_u8(1)));
                }
            }
        }
        return Ok((None, body));
    }
    if marker != 1 {
        proof {
            assert forall|w: Option<i64>|
                starts_with(data@, pos as int, enc_opt_i64(w)) implies false by {
                match w {
                    None => {
                        assert(starts_with(data@, pos as int, enc_u8(0)));
                    },
                    Some(v) => {
                        lemma_starts_with_concat(data@, pos as int, seq![1u8], enc_i64(v));
                        assert(starts_with(data@, pos as int, enc_u8(1)));
                    },
                }
            }
        }
        return Err(DecodeError::Discriminant { offset: pos });
    }
    match decode_i64(data, body) {
        Ok((v, end)) => {
            proof {
                assert(starts_with(data@, pos as int, enc_u8(1)));
                lemma_starts_with_join(data@, pos as int, seq![1u8], enc_i64(v));
                assert(seq![1u8] + enc_i64(v) == enc_opt_i64(Some(v)));
                assert forall|w: Option<i64>|
                    starts_with(data@, pos as int, enc_opt_i64(w)) implies (Some(v).deep_view()
                    == w && pos + enc_opt_i64(w).len() == end) by {
                    match w {
                        None => {
                            assert(starts_with(data@, pos as int, enc_u8(0)));
                        },
                        Some(wv) => {
                            lemma_starts_with_concat(data@, pos as int, seq![1u8], enc_i64(wv));
                        },
                    }
                }
            }
            Ok((Some(v), end))
        },
        Err(e) => {
            proof {
                assert forall|w: Option<i64>|
                    starts_with(data@, pos as int, enc_opt_i64(w)) implies false by {
                    match w {
                        None => {
                            assert(starts_with(data@, pos as int, enc_u8(0)));
                        },
                        Some(wv) => {
                            lemma_starts_with_concat(data@, pos as int, seq![1u8], enc_i64(wv));
                        },
                    }
                }
            }
            Err(e)
        },
    }
}

/// Relies on str::from_utf8: it accepts exactly the byte sequences that
/// are valid UTF-8, and the resulting string's bytes are the input.
/// vstd's `encode_utf8` / `valid_utf8` model that same UTF-8 coding.
#[verifier::external_body]
fn string_from_utf8(bytes: &[u8]) -> (r: Option<String>)
    ensures
        (match r {
            Some(s) => valid_utf8(bytes@) && encode_utf8(s@) == bytes@,
            None => !valid_utf8(bytes@),
        }),
{
    match core::str::from_utf8(bytes) {
        Ok(s) => Some(s.to_owned()),
        Err(_) => None,
    }
}

/// Appends `enc_str` of the string, or reports that it is too long for
/// the 32-bit length prefix.
pub fn encode_str(s: &str, out: &mut Vec<u8>) -> (r: Result<(), EncodeError>)
    ensures
        (match r {
            Ok(_) => crate::model::str_fits(s@) && final(out)@ == old(out)@ + enc_str(s@),
            Err(e) => !crate::model::str_fits(s@) && e == EncodeError::TooLong,
        }),
{
    let bytes = s.as_bytes();
    if bytes.len() as u64 > crate::model::LEN_LIMIT {
        return Err(EncodeError::TooLong);
    }
    encode_u32(#[verifier::truncate] (bytes.len() as u32), out);
    out.extend_from_slice(bytes);
    proof {
        assert(out@ =~= old(out)@ + enc_str(s@));
    }
    Ok(())
}

pub fn decode_str(data: &[u8], pos: usize) -> (r: Result<(String, usize), DecodeError>)
    ensures
        (match r {
            Ok((s, end)) => crate::model::str_fits(s@) && end == pos + enc_str(s@).len()
                && starts_with(data@, pos as int, enc_str(s@)),
            Err(_) => true,
        }),
        forall|w: Seq<char>|
            crate::model::str_fits(w) && starts_with(data@, pos as int, enc_str(w)) ==> (r
                matches Ok(p) && p.0@ == w && p.1 == pos + enc_str(w).len()),
{
    let (n, body) = match decode_u32(data, pos) {
        Ok(p) => p,
        Err(e) => {
            proof {
                assert forall|w: Seq<char>|
                    crate::model::str_fits(w) && starts_with(
                        data@,
                        pos as int,
                        enc_str(w),
                    ) implies false by {
                    lemma_starts_with_concat(
                        data@,
                        pos as int,
                        enc_u32(encode_utf8(w).len() as u32),
                        encode_utf8(w),
                    );
                }
            }
            return Err(e);
        },
    };
    if data.len() - body < n as usize {
        proof {
            assert forall|w: Seq<char>|
                crate::model::str_fits(w) && starts_with(
                    data@,
                    pos as int,
                    enc_str(w),
                ) implies false by {
                lemma_starts_with_concat(
                    data@,
                    pos as int,
                    enc_u32(encode_utf8(w).len() as u32),
                    encode_utf8(w),
                );
            }
        }
        return Err(DecodeError::Truncated { offset: body });
    }
    let raw = slice_subrange(data, body, body + n as usize);
    match string_from_utf8(raw) {
        Some(s) => {
            proof {
                assert(encode_utf8(s@).len() == n);
                assert(data@.subrange(pos as int, body + n) =~= enc_str(s@)) by {
                    assert(data@.subrange(pos as int, body as int) == enc_u32(n));
                    assert(data@.subrange(body as int, body + n) == encode_utf8(s@));
                    lemma_starts_with_join(
                        data@,
                        pos as int,
                        enc_u32(n),
                        encode_utf8(s@),
                    );
                }
                assert forall|w: Seq<char>|
                    crate::model::str_fits(w) && starts_with(
                        data@,
                        pos as int,
                        enc_str(w),
                    ) implies s@ == w && pos + enc_str(w).len() == body + n by {
                    lemma_starts_with_concat(
                        data@,
                        pos as int,
                        enc_u32(encode_utf8(w).len() as u32),
                        encode_utf8(w),
                    );
                    assert(encode_utf8(w).len() as u32 == n);
                    assert(data@.subrange(body as int, body + n) == encode_utf8(w));
                    assert(decode_utf8(encode_utf8(s@)) == decode_utf8(encode_utf8(w)));
                }
            }
            Ok((s, body + n as usize))
        },
        None => {
            proof {
                assert forall|w: Seq<char>|
                    crate::model::str_fits(w) && starts_with(
                        data@,
                        pos as int,
                        enc_str(w),
                    ) implies false by {
                    lemma_starts_with_concat(
                        data@,
                        pos as int,
                        enc_u32(encode_utf8(w).len() as u32),
                        encode_utf8(w),
                    );
                    assert(encode_utf8(w).len() as u32 == n);
                    assert(data@.subrange(body as int, body + n) == encode_utf8(w));
                }
            }
            Err(DecodeError::Utf8 { offset: body })
        },
    }
}

} // verus!
