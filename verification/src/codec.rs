//! One codec interface over the registered formats: `encode_corpus` turns a
//! corpus into bytes for a format, `decode_corpus` turns bytes back into the
//! corpus, and decoding what encoding produced always returns the original.

use crate::decode::{decode_corpus_body, decode_translation_body};
use crate::enc::{enc_corpus, enc_translation};
use crate::encode::{encode_corpus_body, encode_translation_body};
use crate::error::{CorporeumError, DecodeError, EncodeError};
use crate::format::Format;
use crate::gzip::{gunzip_of, gzip_compress, gzip_decompress};
use crate::model::{corpus_fits, translation_fits, CorpusV, TranslationV, LEN_LIMIT};
use crate::schema::{Corpus, Translation};
use crate::wire::{decode_u32, enc_u32, encode_u32, lemma_starts_with_concat, starts_with};
use vstd::prelude::*;
use vstd::slice::slice_subrange;

verus! {

/// The bytes of the archive format: the body's length, then the body.
pub open spec fn spec_archive(body: Seq<u8>) -> Seq<u8> {
    enc_u32(body.len() as u32) + body
}

/// The corpus can be represented in the format: every string and sequence
/// fits a 32-bit length prefix, and for the framed archive formats the
/// whole body does too.
pub open spec fn representable(f: Format, c: CorpusV) -> bool {
    match f {
        Format::Tagged | Format::Binary => corpus_fits(c),
        Format::Archive | Format::ArchiveGz => corpus_fits(c) && enc_corpus(false, c).len()
            <= LEN_LIMIT,
    }
}

/// `b` is a byte representation of the corpus `c` under format `f`. For
/// the compressed archive this is determined through what the bytes
/// decompress to, since compression may choose any equivalent stream.
pub open spec fn encodes(f: Format, c: CorpusV, b: Seq<u8>) -> bool {
    match f {
        Format::Tagged => b == enc_corpus(true, c),
        Format::Binary => b == enc_corpus(false, c),
        Format::Archive => b == spec_archive(enc_corpus(false, c)),
        Format::ArchiveGz => gunzip_of(b) == Some(spec_archive(enc_corpus(false, c))),
    }
}

/// Encodes the corpus for the format. Returns the bytes exactly when the
/// corpus is representable in that format, and `TooLong` otherwise.
pub fn encode_corpus(f: Format, c: &Corpus) -> (r: Result<Vec<u8>, EncodeError>)
    ensures
        (match r {
            Ok(b) => representable(f, c@) && encodes(f, c@, b@),
            Err(e) => !representable(f, c@) && e == EncodeError::TooLong,
        }),
{
    match f {
        Format::Tagged => {
            let mut out: Vec<u8> = Vec::new();
            match encode_corpus_body(true, c, &mut out) {
                Ok(_) => Ok(out),
                Err(e) => Err(e),
            }
        },
        Format::Binary => {
            let mut out: Vec<u8> = Vec::new();
            match encode_corpus_body(false, c, &mut out) {
                Ok(_) => Ok(out),
                Err(e) => Err(e),
            }
        },
        Format::Archive => encode_archive(c),
        Format::ArchiveGz => {
            match encode_archive(c) {
                Ok(arch) => {
                    let gz = gzip_compress(arch.as_slice());
                    Ok(gz)
                },
                Err(e) => Err(e),
            }
        },
    }
}

/// The archive bytes of a corpus: a validated length frame over the
/// binary-stable body.
fn encode_archive(c: &Corpus) -> (r: Result<Vec<u8>, EncodeError>)
    ensures
        (match r {
            Ok(b) => corpus_fits(c@) && enc_corpus(false, c@).len() <= LEN_LIMIT && b@
                == spec_archive(enc_corpus(false, c@)),
            Err(e) => !(corpus_fits(c@) && enc_corpus(false, c@).len() <= LEN_LIMIT) && e
                == EncodeError::TooLong,
        }),
{
    let mut body: Vec<u8> = Vec::new();
    match encode_corpus_body(false, c, &mut body) {
        Ok(_) => (),
        Err(e) => return Err(e),
    }
    if body.len() as u64 > LEN_LIMIT {
        return Err(EncodeError::TooLong);
    }
    let mut out: Vec<u8> = Vec::new();
    encode_u32(#[verifier::truncate] (body.len() as u32), &mut out);
    out.append(&mut body);
    proof {
        assert(out@ =~= spec_archive(enc_corpus(false, c@)));
    }
    Ok(out)
}

/// The validation step of the archive format: checks that the frame's
/// recorded length is exactly the length of what follows, and hands back
/// that body as a read-only view into the buffer, without interpreting it.
pub fn archive_body<'a>(data: &'a [u8]) -> (r: Result<&'a [u8], DecodeError>)
    ensures
        (match r {
            Ok(v) => v@.len() <= LEN_LIMIT && data@ == spec_archive(v@),
            Err(_) => true,
        }),
        forall|bs: Seq<u8>|
            bs.len() <= LEN_LIMIT && data@ == spec_archive(bs) ==> (r matches Ok(v) && v@ == bs),
{
    let (n, p1) = match decode_u32(data, 0) {
        Ok(p) => p,
        Err(e) => {
            proof {
                assert forall|bs: Seq<u8>|
                    bs.len() <= LEN_LIMIT && data@ == spec_archive(bs) implies false by {
                    assert(data@.subrange(0, data@.len() as int) =~= data@);
                    assert(starts_with(data@, 0, enc_u32(bs.len() as u32))) by {
                        lemma_starts_with_concat(data@, 0, enc_u32(bs.len() as u32), bs);
                    }
                }
            }
            return Err(e);
        },
    };
    if data.len() - p1 != n as usize {
        proof {
            assert forall|bs: Seq<u8>|
                bs.len() <= LEN_LIMIT && data@ == spec_archive(bs) implies false by {
                assert(data@.subrange(0, data@.len() as int) =~= data@);
                assert(starts_with(data@, 0, enc_u32(bs.len() as u32))) by {
                    lemma_starts_with_concat(data@, 0, enc_u32(bs.len() as u32), bs);
                }
            }
        }
        return Err(DecodeError::FrameLength { offset: 0 });
    }
    let body = slice_subrange(data, p1, data.len());
    proof {
        assert(data@ =~= spec_archive(body@));
        assert forall|bs: Seq<u8>|
            bs.len() <= LEN_LIMIT && data@ == spec_archive(bs) implies body@ == bs by {
            assert(data@.subrange(0, data@.len() as int) =~= data@);
            assert(starts_with(data@, 0, enc_u32(bs.len() as u32))) by {
                lemma_starts_with_concat(data@, 0, enc_u32(bs.len() as u32), bs);
            }
            assert(body@ =~= bs);
        }
    }
    Ok(body)
}

/// Decodes a structured (tagged or binary) body that must span the whole
/// buffer.
fn decode_structured(t: bool, data: &[u8]) -> (r: Result<Corpus, CorporeumError>)
    ensures
        (match r {
            Ok(c) => corpus_fits(c@) && data@ == enc_corpus(t, c@),
            Err(e) => e is Decode,
        }),
        forall|cv: CorpusV|
            corpus_fits(cv) && data@ == enc_corpus(t, cv) ==> (r matches Ok(c) && c@ == cv),
{
    match decode_corpus_body(t, data, 0) {
        Ok((c, end)) => {
            if end != data.len() {
                proof {
                    assert forall|cv: CorpusV|
                        corpus_fits(cv) && data@ == enc_corpus(t, cv) implies false by {
                        assert(starts_with(data@, 0, enc_corpus(t, cv))) by {
                            assert(data@.subrange(0, data@.len() as int) =~= data@);
                        }
                    }
                }
                return Err(CorporeumError::Decode(DecodeError::TrailingBytes { offset: end }));
            }
            proof {
                assert(data@.subrange(0, data@.len() as int) =~= data@);
                assert forall|cv: CorpusV|
                    corpus_fits(cv) && data@ == enc_corpus(t, cv) implies c@ == cv by {
                    assert(starts_with(data@, 0, enc_corpus(t, cv)));
                }
            }
            Ok(c)
        },
        Err(e) => {
            proof {
                assert forall|cv: CorpusV|
                    corpus_fits(cv) && data@ == enc_corpus(t, cv) implies false by {
                    assert(starts_with(data@, 0, enc_corpus(t, cv))) by {
                        assert(data@.subrange(0, data@.len() as int) =~= data@);
                    }
                }
            }
            Err(CorporeumError::Decode(e))
        },
    }
}

/// Validates an archive's frame, then interprets the body.
fn decode_archive(data: &[u8]) -> (r: Result<Corpus, CorporeumError>)
    ensures
        (match r {
            Ok(c) => corpus_fits(c@) && enc_corpus(false, c@).len() <= LEN_LIMIT && data@
                == spec_archive(enc_corpus(false, c@)),
            Err(e) => e is Decode,
        }),
        forall|cv: CorpusV|
            corpus_fits(cv) && enc_corpus(false, cv).len() <= LEN_LIMIT && data@ == spec_archive(
                enc_corpus(false, cv),
            ) ==> (r matches Ok(c) && c@ == cv),
{
    let body = match archive_body(data) {
        Ok(b) => b,
        Err(e) => {
            return Err(CorporeumError::Decode(e));
        },
    };
    match decode_structured(false, body) {
        Ok(c) => {
            proof {
                assert forall|cv: CorpusV|
                    corpus_fits(cv) && enc_corpus(false, cv).len() <= LEN_LIMIT && data@
                        == spec_archive(enc_corpus(false, cv)) implies c@ == cv by {
                    assert(body@ == enc_corpus(false, cv));
                }
            }
            Ok(c)
        },
        Err(e) => {
            proof {
                assert forall|cv: CorpusV|
                    corpus_fits(cv) && enc_corpus(false, cv).len() <= LEN_LIMIT && data@
                        == spec_archive(enc_corpus(false, cv)) implies false by {
                    assert(body@ == enc_corpus(false, cv));
                }
            }
            Err(e)
        },
    }
}

/// Decodes bytes in the given format back into a corpus.
///
/// Succeeds exactly on byte representations of some corpus: decoding what
/// `encode_corpus` produced yields a corpus structurally equal to the one
/// encoded. For the compressed archive, bytes that fail to decompress are
/// a `Decompression` error, distinct from every codec `Decode` error.
pub fn decode_corpus(f: Format, data: &[u8]) -> (r: Result<Corpus, CorporeumError>)
    ensures
        (match r {
            Ok(c) => representable(f, c@) && encodes(f, c@, data@),
            Err(e) => e is Decode || e is Decompression,
        }),
        forall|cv: CorpusV|
            representable(f, cv) && encodes(f, cv, data@) ==> (r matches Ok(c) && c@ == cv),
        (r matches Err(e) && e is Decompression) <==> (f is ArchiveGz && gunzip_of(data@) is None),
{
    match f {
        Format::Tagged => decode_structured(true, data),
        Format::Binary => decode_structured(false, data),
        Format::Archive => decode_archive(data),
        Format::ArchiveGz => {
            match gzip_decompress(data) {
                None => Err(CorporeumError::Decompression),
                Some(arch) => {
                    match decode_archive(arch.as_slice()) {
                        Ok(c) => Ok(c),
                        Err(e) => Err(e),
                    }
                },
            }
        },
    }
}

/// Decoding an encoded corpus gives back the original: the round-trip law,
/// checked here by the verifier for every format and every representable
/// corpus.
pub fn round_trip(f: Format, c: &Corpus) -> (r: Result<Corpus, CorporeumError>)
    ensures
        representable(f, c@) ==> (r matches Ok(c2) && c2@ == c@),
{
    let bytes = match encode_corpus(f, c) {
        Ok(b) => b,
        Err(e) => return Err(CorporeumError::Encode(e)),
    };
    decode_corpus(f, bytes.as_slice())
}

/// Encodes a standalone translation record, which round-trips on its own,
/// independently of any corpus.
pub fn encode_translation(f: Format, v: &Translation) -> (r: Result<Vec<u8>, EncodeError>)
    ensures
        (match r {
            Ok(b) => translation_fits(v@) && b@ == enc_translation(f is Tagged, v@),
            Err(e) => !translation_fits(v@) && e == EncodeError::TooLong,
        }),
{
    let t = match f {
        Format::Tagged => true,
        _ => false,
    };
    let mut out: Vec<u8> = Vec::new();
    match encode_translation_body(t, v, &mut out) {
        Ok(_) => Ok(out),
        Err(e) => Err(e),
    }
}

/// Decodes a standalone translation record; inverse of
/// `encode_translation` on everything it produces.
pub fn decode_translation(f: Format, data: &[u8]) -> (r: Result<Translation, CorporeumError>)
    ensures
        (match r {
            Ok(v) => translation_fits(v@) && data@ == enc_translation(f is Tagged, v@),
            Err(e) => e is Decode,
        }),
        forall|tv: TranslationV|
            translation_fits(tv) && data@ == enc_translation(f is Tagged, tv) ==> (r matches Ok(v)
                && v@ == tv),
{
    let t = match f {
        Format::Tagged => true,
        _ => false,
    };
    match decode_translation_body(t, data, 0) {
        Ok((v, end)) => {
            if end != data.len() {
                proof {
                    assert forall|tv: TranslationV|
                        translation_fits(tv) && data@ == enc_translation(f is Tagged, tv) implies false by {
                        assert(starts_with(data@, 0, enc_translation(t, tv))) by {
                            assert(data@.subrange(0, data@.len() as int) =~= data@);
                        }
                    }
                }
                return Err(CorporeumError::Decode(DecodeError::TrailingBytes { offset: end }));
            }
            proof {
                assert(data@.subrange(0, data@.len() as int) =~= data@);
                assert forall|tv: TranslationV|
                    translation_fits(tv) && data@ == enc_translation(f is Tagged, tv) implies v@
                    == tv by {
                    assert(starts_with(data@, 0, enc_translation(t, tv)));
                }
            }
            Ok(v)
        },
        Err(e) => {
            proof {
                assert forall|tv: TranslationV|
                    translation_fits(tv) && data@ == enc_translation(f is Tagged, tv) implies false by {
                    assert(starts_with(data@, 0, enc_translation(t, tv))) by {
                        assert(data@.subrange(0, data@.len() as int) =~= data@);
                    }
                }
            }
            Err(CorporeumError::Decode(e))
        },
    }
}

} // verus!
