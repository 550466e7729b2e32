//! Exec decoders. Each carries the two guarantees described in `wire`:
//! a decoded value re-encodes to exactly the bytes consumed (soundness),
//! and wherever the buffer holds the encoding of some value, that value is
//! returned (completeness). The completeness clause is the round-trip law:
//! decoding the encoding of any representable value yields that value.

use crate::enc::{
    enc_author, enc_author_list, enc_authors, enc_corpus, enc_document, enc_document_list,
    enc_documents, enc_metadata, enc_opt_metadata, enc_sentence, enc_sentence_list,
    enc_sentence_head, enc_sentence_parts, enc_sentence_type, enc_sentences, enc_token, enc_token_back, enc_token_front,
    enc_token_list,
    enc_tokens, enc_translation,
    AUT_FIRST_NAME, AUT_LAST_NAME, AUT_MAIL, COR_DOCUMENTS, COR_METADATA, DOC_DESCRIPTION, DOC_ID,
    DOC_SENTENCES, DOC_SOURCE, MET_AUTHORS, MET_CREATED, MET_DESCRIPTION, MET_MODIFIED, MET_NAME,
    MET_VERSION, SEN_ID, SEN_LANG, SEN_TOKENS, SEN_TRANSLATIONS, TOK_DEPREL, TOK_DEPS, TOK_FEATS,
    TOK_FORM, TOK_HEAD, TOK_ID, TOK_LEMMA, TOK_MISC, TOK_UPOS, TOK_XPOS, TRA_ID, TRA_LANG,
    TRA_TOKENS, TRA_TYPE,
};
use crate::error::DecodeError;
use crate::model::{
    author_fits, corpus_fits, document_fits, metadata_fits, opt_metadata_view, sentence_fits,
    token_fits, translation_fits, AuthorV, CorpusV, DocumentV, MetadataV, SentenceV, TokenV,
    TranslationV,
};
use crate::schema::{
    Author, Corpus, Document, Metadata, Sentence, SentenceType, Token, Translation,
};
use crate::wire::{
    decode_i64, decode_opt_i64, decode_opt_str, decode_str, decode_u16, decode_u32, decode_u8,
    enc_i64,
    enc_opt_i64, enc_opt_str, enc_str, enc_u16, enc_u32, enc_u8, expect_tag,
    lemma_starts_with_concat, lemma_starts_with_join, starts_with, tag_of,
};
use vstd::prelude::*;

verus! {

fn decode_tagged_u32(t: bool, tag: u8, data: &[u8], pos: usize) -> (r: Result<
    (u32, usize),
    DecodeError,
>)
    ensures
        (match r {
            Ok((v, end)) => end == pos + (tag_of(t, tag) + enc_u32(v)).len() && starts_with(
                data@,
                pos as int,
                tag_of(t, tag) + enc_u32(v),
            ),
            Err(_) => true,
        }),
        forall|w: u32|
            starts_with(data@, pos as int, tag_of(t, tag) + enc_u32(w)) ==> (r matches Ok(p) && p.0
                == w && p.1 == pos + (tag_of(t, tag) + enc_u32(w)).len()),
{
    let p0 = match expect_tag(t, tag, data, pos) {
        Ok(p) => p,
        Err(e) => {
            proof {
                assert forall|w: u32|
                    starts_with(data@, pos as int, tag_of(t, tag) + enc_u32(w)) implies false by {
                    lemma_starts_with_concat(data@, pos as int, tag_of(t, tag), enc_u32(w));
                }
            }
            return Err(e);
        },
    };
    match decode_u32(data, p0) {
        Ok((v, end)) => {
            proof {
                lemma_starts_with_join(data@, pos as int, tag_of(t, tag), enc_u32(v));
                assert forall|w: u32|
                    starts_with(data@, pos as int, tag_of(t, tag) + enc_u32(w)) implies v == w by {
                    lemma_starts_with_concat(data@, pos as int, tag_of(t, tag), enc_u32(w));
                }
            }
            Ok((v, end))
        },
        Err(e) => {
            proof {
                assert forall|w: u32|
                    starts_with(data@, pos as int, tag_of(t, tag) + enc_u32(w)) implies false by {
                    lemma_starts_with_concat(data@, pos as int, tag_of(t, tag), enc_u32(w));
                }
            }
            Err(e)
        },
    }
}

fn decode_tagged_u16(t: bool, tag: u8, data: &[u8], pos: usize) -> (r: Result<
    (u16, usize),
    DecodeError,
>)
    ensures
        (match r {
            Ok((v, end)) => end == pos + (tag_of(t, tag) + enc_u16(v)).len() && starts_with(
                data@,
                pos as int,
                tag_of(t, tag) + enc_u16(v),
            ),
            Err(_) => true,
        }),
        forall|w: u16|
            starts_with(data@, pos as int, tag_of(t, tag) + enc_u16(w)) ==> (r matches Ok(p) && p.0
                == w && p.1 == pos + (tag_of(t, tag) + enc_u16(w)).len()),
{
    let p0 = match expect_tag(t, tag, data, pos) {
        Ok(p) => p,
        Err(e) => {
            proof {
                assert forall|w: u16|
                    starts_with(data@, pos as int, tag_of(t, tag) + enc_u16(w)) implies false by {
                    lemma_starts_with_concat(data@, pos as int, tag_of(t, tag), enc_u16(w));
                }
            }
            return Err(e);
        },
    };
    match decode_u16(data, p0) {
        Ok((v, end)) => {
            proof {
                lemma_starts_with_join(data@, pos as int, tag_of(t, tag), enc_u16(v));
                assert forall|w: u16|
                    starts_with(data@, pos as int, tag_of(t, tag) + enc_u16(w)) implies v == w by {
                    lemma_starts_with_concat(data@, pos as int, tag_of(t, tag), enc_u16(w));
                }
            }
            Ok((v, end))
        },
        Err(e) => {
            proof {
                assert forall|w: u16|
                    starts_with(data@, pos as int, tag_of(t, tag) + enc_u16(w)) implies false by {
                    lemma_starts_with_concat(data@, pos as int, tag_of(t, tag), enc_u16(w));
                }
            }
            Err(e)
        },
    }
}

fn decode_tagged_str(t: bool, tag: u8, data: &[u8], pos: usize) -> (r: Result<
    (String, usize),
    DecodeError,
>)
    ensures
        (match r {
            Ok((s, end)) => crate::model::str_fits(s@) && end == pos + (tag_of(t, tag) + enc_str(
                s@,
            )).len() && starts_with(data@, pos as int, tag_of(t, tag) + enc_str(s@)),
            Err(_) => true,
        }),
        forall|w: Seq<char>|
            crate::model::str_fits(w) && starts_with(data@, pos as int, tag_of(t, tag) + enc_str(w))
                ==> (r matches Ok(p) && p.0@ == w && p.1 == pos + (tag_of(t, tag) + enc_str(
                w,
            )).len()),
{
    let p0 = match expect_tag(t, tag, data, pos) {
        Ok(p) => p,
        Err(e) => {
            proof {
                assert forall|w: Seq<char>|
                    crate::model::str_fits(w) && starts_with(
                        data@,
                        pos as int,
                        tag_of(t, tag) + enc_str(w),
                    ) implies false by {
                    lemma_starts_with_concat(data@, pos as int, tag_of(t, tag), enc_str(w));
                }
            }
            return Err(e);
        },
    };
    match decode_str(data, p0) {
        Ok((s, end)) => {
            proof {
                lemma_starts_with_join(data@, pos as int, tag_of(t, tag), enc_str(s@));
                assert forall|w: Seq<char>|
                    crate::model::str_fits(w) && starts_with(
                        data@,
                        pos as int,
                        tag_of(t, tag) + enc_str(w),
                    ) implies s@ == w by {
                    lemma_starts_with_concat(data@, pos as int, tag_of(t, tag), enc_str(w));
                }
            }
            Ok((s, end))
        },
        Err(e) => {
            proof {
                assert forall|w: Seq<char>|
                    crate::model::str_fits(w) && starts_with(
                        data@,
                        pos as int,
                        tag_of(t, tag) + enc_str(w),
                    ) implies false by {
                    lemma_starts_with_concat(data@, pos as int, tag_of(t, tag), enc_str(w));
                }
            }
            Err(e)
        },
    }
}

fn decode_tagged_opt_str(t: bool, tag: u8, data: &[u8], pos: usize) -> (r: Result<
    (Option<String>, usize),
    DecodeError,
>)
    ensures
        (match r {
            Ok((o, end)) => crate::model::opt_str_fits(o.deep_view()) && end == pos + (tag_of(
                t,
                tag,
            ) + enc_opt_str(o.deep_view())).len() && starts_with(
                data@,
                pos as int,
                tag_of(t, tag) + enc_opt_str(o.deep_view()),
            ),
            Err(_) => true,
        }),
        forall|w: Option<Seq<char>>|
            crate::model::opt_str_fits(w) && starts_with(
                data@,
                pos as int,
                tag_of(t, tag) + enc_opt_str(w),
            ) ==> (r matches Ok(p) && p.0.deep_view() == w && p.1 == pos + (tag_of(t, tag)
                + enc_opt_str(w)).len()),
{
    let p0 = match expect_tag(t, tag, data, pos) {
        Ok(p) => p,
        Err(e) => {
            proof {
                assert forall|w: Option<Seq<char>>|
                    crate::model::opt_str_fits(w) && starts_with(
                        data@,
                        pos as int,
                        tag_of(t, tag) + enc_opt_str(w),
                    ) implies false by {
                    lemma_starts_with_concat(data@, pos as int, tag_of(t, tag), enc_opt_str(w));
                }
            }
            return Err(e);
        },
    };
    match decode_opt_str(data, p0) {
        Ok((o, end)) => {
            proof {
                lemma_starts_with_join(data@, pos as int, tag_of(t, tag), enc_opt_str(o.deep_view()));
                assert forall|w: Option<Seq<char>>|
                    crate::model::opt_str_fits(w) && starts_with(
                        data@,
                        pos as int,
                        tag_of(t, tag) + enc_opt_str(w),
                    ) implies o.deep_view() == w by {
                    lemma_starts_with_concat(data@, pos as int, tag_of(t, tag), enc_opt_str(w));
                }
            }
            Ok((o, end))
        },
        Err(e) => {
            proof {
                assert forall|w: Option<Seq<char>>|
                    crate::model::opt_str_fits(w) && starts_with(
                        data@,
                        pos as int,
                        tag_of(t, tag) + enc_opt_str(w),
                    ) implies false by {
                    lemma_starts_with_concat(data@, pos as int, tag_of(t, tag), enc_opt_str(w));
                }
            }
            Err(e)
        },
    }
}

fn decode_tagged_opt_i64(t: bool, tag: u8, data: &[u8], pos: usize) -> (r: Result<
    (Option<i64>, usize),
    DecodeError,
>)
    ensures
        (match r {
            Ok((o, end)) => end == pos + (tag_of(t, tag) + enc_opt_i64(o.deep_view())).len()
                && starts_with(data@, pos as int, tag_of(t, tag) + enc_opt_i64(o.deep_view())),
            Err(_) => true,
        }),
        forall|w: Option<i64>|
            starts_with(data@, pos as int, tag_of(t, tag) + enc_opt_i64(w)) ==> (r matches Ok(p)
                && p.0.deep_view() == w && p.1 == pos + (tag_of(t, tag) + enc_opt_i64(w)).len()),
{
    let p0 = match expect_tag(t, tag, data, pos) {
        Ok(p) => p,
        Err(e) => {
            proof {
                assert forall|w: Option<i64>|
                    starts_with(data@, pos as int, tag_of(t, tag) + enc_opt_i64(w)) implies false by {
                    lemma_starts_with_concat(data@, pos as int, tag_of(t, tag), enc_opt_i64(w));
                }
            }
            return Err(e);
        },
    };
    match decode_opt_i64(data, p0) {
        Ok((o, end)) => {
            proof {
                lemma_starts_with_join(
                    data@,
                    pos as int,
                    tag_of(t, tag),
                    enc_opt_i64(o.deep_view()),
                );
                assert forall|w: Option<i64>|
                    starts_with(data@, pos as int, tag_of(t, tag) + enc_opt_i64(w)) implies o.deep_view()
                    == w by {
                    lemma_starts_with_concat(data@, pos as int, tag_of(t, tag), enc_opt_i64(w));
                }
            }
            Ok((o, end))
        },
        Err(e) => {
            proof {
                assert forall|w: Option<i64>|
                    starts_with(data@, pos as int, tag_of(t, tag) + enc_opt_i64(w)) implies false by {
                    lemma_starts_with_concat(data@, pos as int, tag_of(t, tag), enc_opt_i64(w));
                }
            }
            Err(e)
        },
    }
}

/// Splits an occurrence of a token front half into its five field units.
proof fn lemma_token_front_units(
    t: bool,
    data: Seq<u8>,
    pos: int,
    id: u32,
    form: Seq<char>,
    lemma: Option<Seq<char>>,
    upos: Option<Seq<char>>,
    xpos: Option<Seq<char>>,
)
    requires
        starts_with(data, pos, enc_token_front(t, id, form, lemma, upos, xpos)),
    ensures
        starts_with(data, pos, tag_of(t, TOK_ID) + enc_u32(id)),
        starts_with(
            data,
            pos + (tag_of(t, TOK_ID) + enc_u32(id)).len(),
            tag_of(t, TOK_FORM) + enc_str(form),
        ),
        starts_with(
            data,
            pos + (tag_of(t, TOK_ID) + enc_u32(id)).len() + (tag_of(t, TOK_FORM) + enc_str(
                form,
            )).len(),
            tag_of(t, TOK_LEMMA) + enc_opt_str(lemma),
        ),
        starts_with(
            data,
            pos + (tag_of(t, TOK_ID) + enc_u32(id)).len() + (tag_of(t, TOK_FORM) + enc_str(
                form,
            )).len() + (tag_of(t, TOK_LEMMA) + enc_opt_str(lemma)).len(),
            tag_of(t, TOK_UPOS) + enc_opt_str(upos),
        ),
        starts_with(
            data,
            pos + (tag_of(t, TOK_ID) + enc_u32(id)).len() + (tag_of(t, TOK_FORM) + enc_str(
                form,
            )).len() + (tag_of(t, TOK_LEMMA) + enc_opt_str(lemma)).len() + (tag_of(t, TOK_UPOS)
                + enc_opt_str(upos)).len(),
            tag_of(t, TOK_XPOS) + enc_opt_str(xpos),
        ),
{
    let u1 = tag_of(t, TOK_ID) + enc_u32(id);
    let u2 = tag_of(t, TOK_FORM) + enc_str(form);
    let u3 = tag_of(t, TOK_LEMMA) + enc_opt_str(lemma);
    let u4 = tag_of(t, TOK_UPOS) + enc_opt_str(upos);
    let u5 = tag_of(t, TOK_XPOS) + enc_opt_str(xpos);
    lemma_starts_with_concat(data, pos, u1 + u2 + u3 + u4, u5);
    lemma_starts_with_concat(data, pos, u1 + u2 + u3, u4);
    lemma_starts_with_concat(data, pos, u1 + u2, u3);
    lemma_starts_with_concat(data, pos, u1, u2);
}

/// Splits an occurrence of a token back half into its five field units.
proof fn lemma_token_back_units(
    t: bool,
    data: Seq<u8>,
    pos: int,
    feats: Option<Seq<char>>,
    head: Option<Seq<char>>,
    deprel: Option<Seq<char>>,
    deps: Option<Seq<char>>,
    misc: Option<Seq<char>>,
)
    requires
        starts_with(data, pos, enc_token_back(t, feats, head, deprel, deps, misc)),
    ensures
        starts_with(data, pos, tag_of(t, TOK_FEATS) + enc_opt_str(feats)),
        starts_with(
            data,
            pos + (tag_of(t, TOK_FEATS) + enc_opt_str(feats)).len(),
            tag_of(t, TOK_HEAD) + enc_opt_str(head),
        ),
        starts_with(
            data,
            pos + (tag_of(t, TOK_FEATS) + enc_opt_str(feats)).len() + (tag_of(t, TOK_HEAD)
                + enc_opt_str(head)).len(),
            tag_of(t, TOK_DEPREL) + enc_opt_str(deprel),
        ),
        starts_with(
            data,
            pos + (tag_of(t, TOK_FEATS) + enc_opt_str(feats)).len() + (tag_of(t, TOK_HEAD)
                + enc_opt_str(head)).len() + (tag_of(t, TOK_DEPREL) + enc_opt_str(deprel)).len(),
            tag_of(t, TOK_DEPS) + enc_opt_str(deps),
        ),
        starts_with(
            data,
            pos + (tag_of(t, TOK_FEATS) + enc_opt_str(feats)).len() + (tag_of(t, TOK_HEAD)
                + enc_opt_str(head)).len() + (tag_of(t, TOK_DEPREL) + enc_opt_str(deprel)).len() + (
            tag_of(t, TOK_DEPS) + enc_opt_str(deps)).len(),
            tag_of(t, TOK_MISC) + enc_opt_str(misc),
        ),
{
    let u1 = tag_of(t, TOK_FEATS) + enc_opt_str(feats);
    let u2 = tag_of(t, TOK_HEAD) + enc_opt_str(head);
    let u3 = tag_of(t, TOK_DEPREL) + enc_opt_str(deprel);
    let u4 = tag_of(t, TOK_DEPS) + enc_opt_str(deps);
    let u5 = tag_of(t, TOK_MISC) + enc_opt_str(misc);
    lemma_starts_with_concat(data, pos, u1 + u2 + u3 + u4, u5);
    lemma_starts_with_concat(data, pos, u1 + u2 + u3, u4);
    lemma_starts_with_concat(data, pos, u1 + u2, u3);
    lemma_starts_with_concat(data, pos, u1, u2);
}

#[verifier::rlimit(100)]
#[verifier::spinoff_prover]
fn decode_token_front(t: bool, data: &[u8], pos: usize) -> (r: Result<
    ((u32, String, Option<String>, Option<String>, Option<String>), usize),
    DecodeError,
>)
    ensures
        (match r {
            Ok(((id, form, lemma, upos, xpos), end)) => crate::model::str_fits(form@)
                && crate::model::opt_str_fits(lemma.deep_view()) && crate::model::opt_str_fits(
                upos.deep_view(),
            ) && crate::model::opt_str_fits(xpos.deep_view()) && end == pos + enc_token_front(
                t,
                id,
                form@,
                lemma.deep_view(),
                upos.deep_view(),
                xpos.deep_view(),
            ).len() && starts_with(
                data@,
                pos as int,
                enc_token_front(t, id, form@, lemma.deep_view(), upos.deep_view(), xpos.deep_view()),
            ),
            Err(_) => true,
        }),
        forall|wi: u32, wf: Seq<char>, wl: Option<Seq<char>>, wu: Option<Seq<char>>, wx: Option<
            Seq<char>,
        >|
            crate::model::str_fits(wf) && crate::model::opt_str_fits(wl)
                && crate::model::opt_str_fits(wu) && crate::model::opt_str_fits(wx) && starts_with(
                data@,
                pos as int,
                enc_token_front(t, wi, wf, wl, wu, wx),
            ) ==> (r matches Ok(p) && p.0.0 == wi && p.0.1@ == wf && p.0.2.deep_view() == wl
                && p.0.3.deep_view() == wu && p.0.4.deep_view() == wx && p.1 == pos
                + enc_token_front(t, wi, wf, wl, wu, wx).len()),
{
    let (id, p1) = match decode_tagged_u32(t, TOK_ID, data, pos) {
        Ok(p) => p,
        Err(e) => {
            proof {
                assert forall|
                    wi: u32,
                    wf: Seq<char>,
                    wl: Option<Seq<char>>,
                    wu: Option<Seq<char>>,
                    wx: Option<Seq<char>>,
                |
                    starts_with(
                        data@,
                        pos as int,
                        enc_token_front(t, wi, wf, wl, wu, wx),
                    ) implies false by {
                    lemma_token_front_units(t, data@, pos as int, wi, wf, wl, wu, wx);
                }
            }
            return Err(e);
        },
    };
    let (form, p2) = match decode_tagged_str(t, TOK_FORM, data, p1) {
        Ok(p) => p,
        Err(e) => {
            proof {
                assert forall|
                    wi: u32,
                    wf: Seq<char>,
                    wl: Option<Seq<char>>,
                    wu: Option<Seq<char>>,
                    wx: Option<Seq<char>>,
                |
                    crate::model::str_fits(wf) && starts_with(
                        data@,
                        pos as int,
                        enc_token_front(t, wi, wf, wl, wu, wx),
                    ) implies false by {
                    lemma_token_front_units(t, data@, pos as int, wi, wf, wl, wu, wx);
                }
            }
            return Err(e);
        },
    };
    let (lemma, p3) = match decode_tagged_opt_str(t, TOK_LEMMA, data, p2) {
        Ok(p) => p,
        Err(e) => {
            proof {
                assert forall|
                    wi: u32,
                    wf: Seq<char>,
                    wl: Option<Seq<char>>,
                    wu: Option<Seq<char>>,
                    wx: Option<Seq<char>>,
                |
                    crate::model::str_fits(wf) && crate::model::opt_str_fits(wl) && starts_with(
                        data@,
                        pos as int,
                        enc_token_front(t, wi, wf, wl, wu, wx),
                    ) implies false by {
                    lemma_token_front_units(t, data@, pos as int, wi, wf, wl, wu, wx);
                }
            }
            return Err(e);
        },
    };
    let (upos, p4) = match decode_tagged_opt_str(t, TOK_UPOS, data, p3) {
        Ok(p) => p,
        Err(e) => {
            proof {
                assert forall|
                    wi: u32,
                    wf: Seq<char>,
                    wl: Option<Seq<char>>,
                    wu: Option<Seq<char>>,
                    wx: Option<Seq<char>>,
                |
                    crate::model::str_fits(wf) && crate::model::opt_str_fits(wl)
                        && crate::model::opt_str_fits(wu) && starts_with(
                        data@,
                        pos as int,
                        enc_token_front(t, wi, wf, wl, wu, wx),
                    ) implies false by {
                    lemma_token_front_units(t, data@, pos as int, wi, wf, wl, wu, wx);
                }
            }
            return Err(e);
        },
    };
    let (xpos, p5) = match decode_tagged_opt_str(t, TOK_XPOS, data, p4) {
        Ok(p) => p,
        Err(e) => {
            proof {
                assert forall|
                    wi: u32,
                    wf: Seq<char>,
                    wl: Option<Seq<char>>,
                    wu: Option<Seq<char>>,
                    wx: Option<Seq<char>>,
                |
                    crate::model::str_fits(wf) && crate::model::opt_str_fits(wl)
                        && crate::model::opt_str_fits(wu) && crate::model::opt_str_fits(wx)
                        && starts_with(
                        data@,
                        pos as int,
                        enc_token_front(t, wi, wf, wl, wu, wx),
                    ) implies false by {
                    lemma_token_front_units(t, data@, pos as int, wi, wf, wl, wu, wx);
                }
            }
            return Err(e);
        },
    };
    proof {
        let u1 = tag_of(t, TOK_ID) + enc_u32(id);
        let u2 = tag_of(t, TOK_FORM) + enc_str(form@);
        let u3 = tag_of(t, TOK_LEMMA) + enc_opt_str(lemma.deep_view());
        let u4 = tag_of(t, TOK_UPOS) + enc_opt_str(upos.deep_view());
        let u5 = tag_of(t, TOK_XPOS) + enc_opt_str(xpos.deep_view());
        lemma_starts_with_join(data@, pos as int, u1, u2);
        lemma_starts_with_join(data@, pos as int, u1 + u2, u3);
        lemma_starts_with_join(data@, pos as int, u1 + u2 + u3, u4);
        lemma_starts_with_join(data@, pos as int, u1 + u2 + u3 + u4, u5);
        assert forall|
            wi: u32,
            wf: Seq<char>,
            wl: Option<Seq<char>>,
            wu: Option<Seq<char>>,
            wx: Option<Seq<char>>,
        |
            crate::model::str_fits(wf) && crate::model::opt_str_fits(wl)
                && crate::model::opt_str_fits(wu) && crate::model::opt_str_fits(wx) && starts_with(
                data@,
                pos as int,
                enc_token_front(t, wi, wf, wl, wu, wx),
            ) implies (id == wi && form@ == wf && lemma.deep_view() == wl && upos.deep_view() == wu
            && xpos.deep_view() == wx && pos + enc_token_front(t, wi, wf, wl, wu, wx).len()
            == p5) by {
            lemma_token_front_units(t, data@, pos as int, wi, wf, wl, wu, wx);
        }
    }
    Ok(((id, form, lemma, upos, xpos), p5))
}

#[verifier::rlimit(100)]
#[verifier::spinoff_prover]
fn decode_token_back(t: bool, data: &[u8], pos: usize) -> (r: Result<
    ((Option<String>, Option<String>, Option<String>, Option<String>, Option<String>), usize),
    DecodeError,
>)
    ensures
        (match r {
            Ok(((feats, head, deprel, deps, misc), end)) => crate::model::opt_str_fits(
                feats.deep_view(),
            ) && crate::model::opt_str_fits(head.deep_view()) && crate::model::opt_str_fits(
                deprel.deep_view(),
            ) && crate::model::opt_str_fits(deps.deep_view()) && crate::model::opt_str_fits(
                misc.deep_view(),
            ) && end == pos + enc_token_back(
                t,
                feats.deep_view(),
                head.deep_view(),
                deprel.deep_view(),
                deps.deep_view(),
                misc.deep_view(),
            ).len() && starts_with(
                data@,
                pos as int,
                enc_token_back(
                    t,
                    feats.deep_view(),
                    head.deep_view(),
                    deprel.deep_view(),
                    deps.deep_view(),
                    misc.deep_view(),
                ),
            ),
            Err(_) => true,
        }),
        forall|
            wf: Option<Seq<char>>,
            wh: Option<Seq<char>>,
            wr: Option<Seq<char>>,
            wd: Option<Seq<char>>,
            wm: Option<Seq<char>>,
        |
            crate::model::opt_str_fits(wf) && crate::model::opt_str_fits(wh)
                && crate::model::opt_str_fits(wr) && crate::model::opt_str_fits(wd)
                && crate::model::opt_str_fits(wm) && starts_with(
                data@,
                pos as int,
                enc_token_back(t, wf, wh, wr, wd, wm),
            ) ==> (r matches Ok(p) && p.0.0.deep_view() == wf && p.0.1.deep_view() == wh
                && p.0.2.deep_view() == wr && p.0.3.deep_view() == wd && p.0.4.deep_view() == wm
                && p.1 == pos + enc_token_back(t, wf, wh, wr, wd, wm).len()),
{
    let (feats, p1) = match decode_tagged_opt_str(t, TOK_FEATS, data, pos) {
        Ok(p) => p,
        Err(e) => {
            proof {
                assert forall|
                    wf: Option<Seq<char>>,
                    wh: Option<Seq<char>>,
                    wr: Option<Seq<char>>,
                    wd: Option<Seq<char>>,
                    wm: Option<Seq<char>>,
                |
                    crate::model::opt_str_fits(wf) && starts_with(
                        data@,
                        pos as int,
                        enc_token_back(t, wf, wh, wr, wd, wm),
                    ) implies false by {
                    lemma_token_back_units(t, data@, pos as int, wf, wh, wr, wd, wm);
                }
            }
            return Err(e);
        },
    };
    let (head, p2) = match decode_tagged_opt_str(t, TOK_HEAD, data, p1) {
        Ok(p) => p,
        Err(e) => {
            proof {
                assert forall|
                    wf: Option<Seq<char>>,
                    wh: Option<Seq<char>>,
                    wr: Option<Seq<char>>,
                    wd: Option<Seq<char>>,
                    wm: Option<Seq<char>>,
                |
                    crate::model::opt_str_fits(wf) && crate::model::opt_str_fits(wh) && starts_with(
                        data@,
                        pos as int,
                        enc_token_back(t, wf, wh, wr, wd, wm),
                    ) implies false by {
                    lemma_token_back_units(t, data@, pos as int, wf, wh, wr, wd, wm);
                }
            }
            return Err(e);
        },
    };
    let (deprel, p3) = match decode_tagged_opt_str(t, TOK_DEPREL, data, p2) {
        Ok(p) => p,
        Err(e) => {
            proof {
                assert forall|
                    wf: Option<Seq<char>>,
                    wh: Option<Seq<char>>,
                    wr: Option<Seq<char>>,
                    wd: Option<Seq<char>>,
                    wm: Option<Seq<char>>,
                |
                    crate::model::opt_str_fits(wf) && crate::model::opt_str_fits(wh)
                        && crate::model::opt_str_fits(wr) && starts_with(
                        data@,
                        pos as int,
                        enc_token_back(t, wf, wh, wr, wd, wm),
                    ) implies false by {
                    lemma_token_back_units(t, data@, pos as int, wf, wh, wr, wd, wm);
                }
            }
            return Err(e);
        },
    };
    let (deps, p4) = match decode_tagged_opt_str(t, TOK_DEPS, data, p3) {
        Ok(p) => p,
        Err(e) => {
            proof {
                assert forall|
                    wf: Option<Seq<char>>,
                    wh: Option<Seq<char>>,
                    wr: Option<Seq<char>>,
                    wd: Option<Seq<char>>,
                    wm: Option<Seq<char>>,
                |
                    crate::model::opt_str_fits(wf) && crate::model::opt_str_fits(wh)
                        && crate::model::opt_str_fits(wr) && crate::model::opt_str_fits(wd)
                        && starts_with(
                        data@,
                        pos as int,
                        enc_token_back(t, wf, wh, wr, wd, wm),
                    ) implies false by {
                    lemma_token_back_units(t, data@, pos as int, wf, wh, wr, wd, wm);
                }
            }
            return Err(e);
        },
    };
    let (misc, p5) = match decode_tagged_opt_str(t, TOK_MISC, data, p4) {
        Ok(p) => p,
        Err(e) => {
            proof {
                assert forall|
                    wf: Option<Seq<char>>,
                    wh: Option<Seq<char>>,
                    wr: Option<Seq<char>>,
                    wd: Option<Seq<char>>,
                    wm: Option<Seq<char>>,
                |
                    crate::model::opt_str_fits(wf) && crate::model::opt_str_fits(wh)
                        && crate::model::opt_str_fits(wr) && crate::model::opt_str_fits(wd)
                        && crate::model::opt_str_fits(wm) && starts_with(
                        data@,
                        pos as int,
                        enc_token_back(t, wf, wh, wr, wd, wm),
                    ) implies false by {
                    lemma_token_back_units(t, data@, pos as int, wf, wh, wr, wd, wm);
                }
            }
            return Err(e);
        },
    };
    proof {
        let u1 = tag_of(t, TOK_FEATS) + enc_opt_str(feats.deep_view());
        let u2 = tag_of(t, TOK_HEAD) + enc_opt_str(head.deep_view());
        let u3 = tag_of(t, TOK_DEPREL) + enc_opt_str(deprel.deep_view());
        let u4 = tag_of(t, TOK_DEPS) + enc_opt_str(deps.deep_view());
        let u5 = tag_of(t, TOK_MISC) + enc_opt_str(misc.deep_view());
        lemma_starts_with_join(data@, pos as int, u1, u2);
        lemma_starts_with_join(data@, pos as int, u1 + u2, u3);
        lemma_starts_with_join(data@, pos as int, u1 + u2 + u3, u4);
        lemma_starts_with_join(data@, pos as int, u1 + u2 + u3 + u4, u5);
        assert forall|
            wf: Option<Seq<char>>,
            wh: Option<Seq<char>>,
            wr: Option<Seq<char>>,
            wd: Option<Seq<char>>,
            wm: Option<Seq<char>>,
        |
            crate::model::opt_str_fits(wf) && crate::model::opt_str_fits(wh)
                && crate::model::opt_str_fits(wr) && crate::model::opt_str_fits(wd)
                && crate::model::opt_str_fits(wm) && starts_with(
                data@,
                pos as int,
                enc_token_back(t, wf, wh, wr, wd, wm),
            ) implies (feats.deep_view() == wf && head.deep_view() == wh && deprel.deep_view() == wr
            && deps.deep_view() == wd && misc.deep_view() == wm && pos + enc_token_back(
            t,
            wf,
            wh,
            wr,
            wd,
            wm,
        ).len() == p5) by {
            lemma_token_back_units(t, data@, pos as int, wf, wh, wr, wd, wm);
        }
    }
    Ok(((feats, head, deprel, deps, misc), p5))
}

#[verifier::rlimit(100)]
#[verifier::spinoff_prover]
pub fn decode_token(t: bool, data: &[u8], pos: usize) -> (r: Result<(Token, usize), DecodeError>)
    ensures
        (match r {
            Ok((v, end)) => token_fits(v@) && end == pos + enc_token(t, v@).len() && starts_with(
                data@,
                pos as int,
                enc_token(t, v@),
            ),
            Err(_) => true,
        }),
        forall|w: TokenV|
            token_fits(w) && starts_with(data@, pos as int, enc_token(t, w)) ==> (r matches Ok(p)
                && p.0@ == w && p.1 == pos + enc_token(t, w).len()),
{
    let ((id, form, lemma, upos, xpos), p1) = match decode_token_front(t, data, pos) {
        Ok(p) => p,
        Err(e) => {
            proof {
                assert forall|w: TokenV|
                    token_fits(w) && starts_with(data@, pos as int, enc_token(t, w)) implies false by {
                    lemma_starts_with_concat(
                        data@,
                        pos as int,
                        enc_token_front(t, w.id, w.form, w.lemma, w.upos, w.xpos),
                        enc_token_back(t, w.feats, w.head, w.deprel, w.deps, w.misc),
                    );
                }
            }
            return Err(e);
        },
    };
    let ((feats, head, deprel, deps, misc), p2) = match decode_token_back(t, data, p1) {
        Ok(p) => p,
        Err(e) => {
            proof {
                assert forall|w: TokenV|
                    token_fits(w) && starts_with(data@, pos as int, enc_token(t, w)) implies false by {
                    lemma_starts_with_concat(
                        data@,
                        pos as int,
                        enc_token_front(t, w.id, w.form, w.lemma, w.upos, w.xpos),
                        enc_token_back(t, w.feats, w.head, w.deprel, w.deps, w.misc),
                    );
                }
            }
            return Err(e);
        },
    };
    let tok = Token { id, form, lemma, upos, xpos, feats, head, deprel, deps, misc };
    proof {
        lemma_starts_with_join(
            data@,
            pos as int,
            enc_token_front(
                t,
                tok@.id,
                tok@.form,
                tok@.lemma,
                tok@.upos,
                tok@.xpos,
            ),
            enc_token_back(t, tok@.feats, tok@.head, tok@.deprel, tok@.deps, tok@.misc),
        );
        assert forall|w: TokenV|
            token_fits(w) && starts_with(data@, pos as int, enc_token(t, w)) implies (tok@ == w
            && pos + enc_token(t, w).len() == p2) by {
            lemma_starts_with_concat(
                data@,
                pos as int,
                enc_token_front(t, w.id, w.form, w.lemma, w.upos, w.xpos),
                enc_token_back(t, w.feats, w.head, w.deprel, w.deps, w.misc),
            );
            assert(tok@ =~= w);
        }
    }
    Ok((tok, p2))
}

#[verifier::rlimit(100)]
#[verifier::spinoff_prover]
fn decode_tokens_from(t: bool, data: &[u8], pos: usize, n: u32) -> (r: Result<
    (Vec<Token>, usize),
    DecodeError,
>)
    requires
        pos <= data@.len(),
    ensures
        (match r {
            Ok((vs, end)) => vs@.len() == n && (forall|j: int|
                0 <= j < vs@.len() ==> token_fits(#[trigger] vs.deep_view()[j])) && end == pos
                + enc_tokens(t, vs.deep_view()).len() && starts_with(
                data@,
                pos as int,
                enc_tokens(t, vs.deep_view()),
            ),
            Err(_) => true,
        }),
        forall|ws: Seq<TokenV>|
            ws.len() == n && (forall|j: int| 0 <= j < ws.len() ==> token_fits(#[trigger] ws[j]))
                && starts_with(data@, pos as int, enc_tokens(t, ws)) ==> (r matches Ok(p)
                && p.0.deep_view() == ws && p.1 == pos + enc_tokens(t, ws).len()),
    decreases n,
{
    if n == 0 {
        let vs: Vec<Token> = Vec::new();
        proof {
            assert(vs.deep_view() =~= Seq::<TokenV>::empty());
            assert(data@.subrange(pos as int, pos as int) =~= Seq::<u8>::empty());
            assert forall|ws: Seq<TokenV>|
                ws.len() == n && starts_with(data@, pos as int, enc_tokens(t, ws)) implies vs.deep_view()
                == ws by {
                assert(ws =~= Seq::<TokenV>::empty());
            }
        }
        return Ok((vs, pos));
    }
    let (tok, p1) = match decode_token(t, data, pos) {
        Ok(p) => p,
        Err(e) => {
            proof {
                assert forall|ws: Seq<TokenV>|
                    ws.len() == n && (forall|j: int|
                        0 <= j < ws.len() ==> token_fits(#[trigger] ws[j])) && starts_with(
                        data@,
                        pos as int,
                        enc_tokens(t, ws),
                    ) implies false by {
                    lemma_starts_with_concat(
                        data@,
                        pos as int,
                        enc_token(t, ws[0]),
                        enc_tokens(t, ws.drop_first()),
                    );
                }
            }
            return Err(e);
        },
    };
    let (mut rest, end) = match decode_tokens_from(t, data, p1, n - 1) {
        Ok(p) => p,
        Err(e) => {
            proof {
                assert forall|ws: Seq<TokenV>|
                    ws.len() == n && (forall|j: int|
                        0 <= j < ws.len() ==> token_fits(#[trigger] ws[j])) && starts_with(
                        data@,
                        pos as int,
                        enc_tokens(t, ws),
                    ) implies false by {
                    lemma_starts_with_concat(
                        data@,
                        pos as int,
                        enc_token(t, ws[0]),
                        enc_tokens(t, ws.drop_first()),
                    );
                    assert(ws.drop_first().len() == n - 1);
                }
            }
            return Err(e);
        },
    };
    let ghost rest0 = rest.deep_view();
    rest.insert(0, tok);
    proof {
        let dv = rest.deep_view();
        assert(dv =~= seq![tok@] + rest0);
        assert(dv[0] == tok@);
        assert(dv.drop_first() =~= rest0);
        lemma_starts_with_join(data@, pos as int, enc_token(t, tok@), enc_tokens(t, rest0));
        assert(enc_tokens(t, dv) == enc_token(t, tok@) + enc_tokens(t, rest0));
        assert forall|ws: Seq<TokenV>|
            ws.len() == n && (forall|j: int| 0 <= j < ws.len() ==> token_fits(#[trigger] ws[j]))
                && starts_with(data@, pos as int, enc_tokens(t, ws)) implies (dv == ws && pos
            + enc_tokens(t, ws).len() == end) by {
            lemma_starts_with_concat(
                data@,
                pos as int,
                enc_token(t, ws[0]),
                enc_tokens(t, ws.drop_first()),
            );
            assert(ws.drop_first().len() == n - 1);
            assert forall|j: int| 0 <= j < ws.drop_first().len() implies token_fits(
                #[trigger] ws.drop_first()[j],
            ) by {
                assert(ws.drop_first()[j] == ws[j + 1]);
            }
            assert(rest0 == ws.drop_first());
            assert(dv =~= ws);
        }
    }
    Ok((rest, end))
}

pub fn decode_token_list(t: bool, data: &[u8], pos: usize) -> (r: Result<
    (Vec<Token>, usize),
    DecodeError,
>)
    ensures
        (match r {
            Ok((vs, end)) => crate::model::tokens_fit(vs.deep_view()) && end == pos
                + enc_token_list(t, vs.deep_view()).len() && starts_with(
                data@,
                pos as int,
                enc_token_list(t, vs.deep_view()),
            ),
            Err(_) => true,
        }),
        forall|ws: Seq<TokenV>|
            crate::model::tokens_fit(ws) && starts_with(data@, pos as int, enc_token_list(t, ws))
                ==> (r matches Ok(p) && p.0.deep_view() == ws && p.1 == pos + enc_token_list(
                t,
                ws,
            ).len()),
{
    let (n, p1) = match decode_u32(data, pos) {
        Ok(p) => p,
        Err(e) => {
            proof {
                assert forall|ws: Seq<TokenV>|
                    crate::model::tokens_fit(ws) && starts_with(
                        data@,
                        pos as int,
                        enc_token_list(t, ws),
                    ) implies false by {
                    lemma_starts_with_concat(
                        data@,
                        pos as int,
                        enc_u32(ws.len() as u32),
                        enc_tokens(t, ws),
                    );
                }
            }
            return Err(e);
        },
    };
    match decode_tokens_from(t, data, p1, n) {
        Ok((vs, end)) => {
            proof {
                lemma_starts_with_join(
                    data@,
                    pos as int,
                    enc_u32(n),
                    enc_tokens(t, vs.deep_view()),
                );
                assert(vs.deep_view().len() as u32 == n);
                assert(enc_token_list(t, vs.deep_view()) == enc_u32(n) + enc_tokens(
                    t,
                    vs.deep_view(),
                ));
                assert forall|ws: Seq<TokenV>|
                    crate::model::tokens_fit(ws) && starts_with(
                        data@,
                        pos as int,
                        enc_token_list(t, ws),
                    ) implies (vs.deep_view() == ws && pos + enc_token_list(t, ws).len()
                    == end) by {
                    lemma_starts_with_concat(
                        data@,
                        pos as int,
                        enc_u32(ws.len() as u32),
                        enc_tokens(t, ws),
                    );
                    assert(ws.len() == n);
                }
            }
            Ok((vs, end))
        },
        Err(e) => {
            proof {
                assert forall|ws: Seq<TokenV>|
                    crate::model::tokens_fit(ws) && starts_with(
                        data@,
                        pos as int,
                        enc_token_list(t, ws),
                    ) implies false by {
                    lemma_starts_with_concat(
                        data@,
                        pos as int,
                        enc_u32(ws.len() as u32),
                        enc_tokens(t, ws),
                    );
                    assert(ws.len() == n);
                }
            }
            Err(e)
        },
    }
}

pub fn decode_sentence_type(data: &[u8], pos: usize) -> (r: Result<
    (SentenceType, usize),
    DecodeError,
>)
    ensures
        (match r {
            Ok((v, end)) => end == pos + enc_sentence_type(v).len() && starts_with(
                data@,
                pos as int,
                enc_sentence_type(v),
            ),
            Err(_) => true,
        }),
        forall|w: SentenceType|
            starts_with(data@, pos as int, enc_sentence_type(w)) ==> (r matches Ok(p) && p.0 == w
                && p.1 == pos + enc_sentence_type(w).len()),
{
    let (marker, end) = match decode_u8(data, pos) {
        Ok(p) => p,
        Err(e) => {
            proof {
                assert forall|w: SentenceType|
                    starts_with(data@, pos as int, enc_sentence_type(w)) implies false by {
                    assert(enc_sentence_type(w) == enc_u8(0) || enc_sentence_type(w) == enc_u8(1));
                }
            }
            return Err(e);
        },
    };
    if marker == 0 {
        proof {
            assert(starts_with(data@, pos as int, enc_u8(marker)));
            assert(enc_u8(0) == enc_sentence_type(SentenceType::Source));
            assert forall|w: SentenceType|
                starts_with(data@, pos as int, enc_sentence_type(w)) implies w
                == SentenceType::Source by {
                if w is Translation {
                    assert(starts_with(data@, pos as int, enc_u8(1)));
                }
            }
        }
        return Ok((SentenceType::Source, end));
    }
    if marker == 1 {
        proof {
            assert(starts_with(data@, pos as int, enc_u8(marker)));
            assert(enc_u8(1) == enc_sentence_type(SentenceType::Translation));
            assert forall|w: SentenceType|
                starts_with(data@, pos as int, enc_sentence_type(w)) implies w
                == SentenceType::Translation by {
                if w is Source {
                    assert(starts_with(data@, pos as int, enc_u8(0)));
                }
            }
        }
        return Ok((SentenceType::Translation, end));
    }
    proof {
        assert forall|w: SentenceType|
            starts_with(data@, pos as int, enc_sentence_type(w)) implies false by {
            assert(enc_sentence_type(w) == enc_u8(0) || enc_sentence_type(w) == enc_u8(1));
        }
    }
    Err(DecodeError::Discriminant { offset: pos })
}

fn decode_tagged_sentence_type(t: bool, tag: u8, data: &[u8], pos: usize) -> (r: Result<
    (SentenceType, usize),
    DecodeError,
>)
    ensures
        (match r {
            Ok((v, end)) => end == pos + (tag_of(t, tag) + enc_sentence_type(v)).len()
                && starts_with(data@, pos as int, tag_of(t, tag) + enc_sentence_type(v)),
            Err(_) => true,
        }),
        forall|w: SentenceType|
            starts_with(data@, pos as int, tag_of(t, tag) + enc_sentence_type(w)) ==> (r matches Ok(
                p,
            ) && p.0 == w && p.1 == pos + (tag_of(t, tag) + enc_sentence_type(w)).len()),
{
    let p0 = match expect_tag(t, tag, data, pos) {
        Ok(p) => p,
        Err(e) => {
            proof {
                assert forall|w: SentenceType|
                    starts_with(
                        data@,
                        pos as int,
                        tag_of(t, tag) + enc_sentence_type(w),
                    ) implies false by {
                    lemma_starts_with_concat(data@, pos as int, tag_of(t, tag), enc_sentence_type(w));
                }
            }
            return Err(e);
        },
    };
    match decode_sentence_type(data, p0) {
        Ok((v, end)) => {
            proof {
                lemma_starts_with_join(data@, pos as int, tag_of(t, tag), enc_sentence_type(v));
                assert forall|w: SentenceType|
                    starts_with(data@, pos as int, tag_of(t, tag) + enc_sentence_type(w)) implies v
                    == w by {
                    lemma_starts_with_concat(data@, pos as int, tag_of(t, tag), enc_sentence_type(w));
                }
            }
            Ok((v, end))
        },
        Err(e) => {
            proof {
                assert forall|w: SentenceType|
                    starts_with(
                        data@,
                        pos as int,
                        tag_of(t, tag) + enc_sentence_type(w),
                    ) implies false by {
                    lemma_starts_with_concat(data@, pos as int, tag_of(t, tag), enc_sentence_type(w));
                }
            }
            Err(e)
        },
    }
}

fn decode_tagged_token_list(t: bool, tag: u8, data: &[u8], pos: usize) -> (r: Result<
    (Vec<Token>, usize),
    DecodeError,
>)
    ensures
        (match r {
            Ok((vs, end)) => crate::model::tokens_fit(vs.deep_view()) && end == pos + (tag_of(
                t,
                tag,
            ) + enc_token_list(t, vs.deep_view())).len() && starts_with(
                data@,
                pos as int,
                tag_of(t, tag) + enc_token_list(t, vs.deep_view()),
            ),
            Err(_) => true,
        }),
        forall|ws: Seq<TokenV>|
            crate::model::tokens_fit(ws) && starts_with(
                data@,
                pos as int,
                tag_of(t, tag) + enc_token_list(t, ws),
            ) ==> (r matches Ok(p) && p.0.deep_view() == ws && p.1 == pos + (tag_of(t, tag)
                + enc_token_list(t, ws)).len()),
{
    let p0 = match expect_tag(t, tag, data, pos) {
        Ok(p) => p,
        Err(e) => {
            proof {
                assert forall|ws: Seq<TokenV>|
                    crate::model::tokens_fit(ws) && starts_with(
                        data@,
                        pos as int,
                        tag_of(t, tag) + enc_token_list(t, ws),
                    ) implies false by {
                    lemma_starts_with_concat(data@, pos as int, tag_of(t, tag), enc_token_list(t, ws));
                }
            }
            return Err(e);
        },
    };
    match decode_token_list(t, data, p0) {
        Ok((vs, end)) => {
            proof {
                lemma_starts_with_join(
                    data@,
                    pos as int,
                    tag_of(t, tag),
                    enc_token_list(t, vs.deep_view()),
                );
                assert forall|ws: Seq<TokenV>|
                    crate::model::tokens_fit(ws) && starts_with(
                        data@,
                        pos as int,
                        tag_of(t, tag) + enc_token_list(t, ws),
                    ) implies vs.deep_view() == ws by {
                    lemma_starts_with_concat(data@, pos as int, tag_of(t, tag), enc_token_list(t, ws));
                }
            }
            Ok((vs, end))
        },
        Err(e) => {
            proof {
                assert forall|ws: Seq<TokenV>|
                    crate::model::tokens_fit(ws) && starts_with(
                        data@,
                        pos as int,
                        tag_of(t, tag) + enc_token_list(t, ws),
                    ) implies false by {
                    lemma_starts_with_concat(data@, pos as int, tag_of(t, tag), enc_token_list(t, ws));
                }
            }
            Err(e)
        },
    }
}

/// Splits an occurrence of a sentence's encoding into everything before
/// the translations and the translation list itself.
proof fn lemma_sentence_units(t: bool, data: Seq<u8>, pos: int, w: SentenceV)
    requires
        starts_with(data, pos, enc_sentence(t, w)),
    ensures
        starts_with(data, pos, enc_sentence_parts(t, w.id, w.lang, w.tokens)),
        starts_with(
            data,
            pos + enc_sentence_parts(t, w.id, w.lang, w.tokens).len(),
            tag_of(t, SEN_TRANSLATIONS) + enc_sentence_list(t, w.translations),
        ),
{
    lemma_starts_with_concat(
        data,
        pos,
        enc_sentence_parts(t, w.id, w.lang, w.tokens),
        tag_of(t, SEN_TRANSLATIONS) + enc_sentence_list(t, w.translations),
    );
}

#[verifier::rlimit(100)]
#[verifier::spinoff_prover]
fn decode_sentence_head(t: bool, data: &[u8], pos: usize) -> (r: Result<
    ((u32, String), usize),
    DecodeError,
>)
    ensures
        (match r {
            Ok(((id, lang), end)) => crate::model::str_fits(lang@) && end == pos
                + enc_sentence_head(t, id, lang@).len() && starts_with(
                data@,
                pos as int,
                enc_sentence_head(t, id, lang@),
            ),
            Err(_) => true,
        }),
        forall|wi: u32, wl: Seq<char>|
            crate::model::str_fits(wl) && starts_with(
                data@,
                pos as int,
                enc_sentence_head(t, wi, wl),
            ) ==> (r matches Ok(p) && p.0.0 == wi && p.0.1@ == wl && p.1 == pos
                + enc_sentence_head(t, wi, wl).len()),
{
    let (id, p1) = match decode_tagged_u32(t, SEN_ID, data, pos) {
        Ok(p) => p,
        Err(e) => {
            proof {
                assert forall|wi: u32, wl: Seq<char>|
                    crate::model::str_fits(wl) && starts_with(
                        data@,
                        pos as int,
                        enc_sentence_head(t, wi, wl),
                    ) implies false by {
                    lemma_starts_with_concat(
                        data@,
                        pos as int,
                        tag_of(t, SEN_ID) + enc_u32(wi),
                        tag_of(t, SEN_LANG) + enc_str(wl),
                    );
                }
            }
            return Err(e);
        },
    };
    match decode_tagged_str(t, SEN_LANG, data, p1) {
        Ok((lang, p2)) => {
            proof {
                lemma_starts_with_join(
                    data@,
                    pos as int,
                    tag_of(t, SEN_ID) + enc_u32(id),
                    tag_of(t, SEN_LANG) + enc_str(lang@),
                );
                assert forall|wi: u32, wl: Seq<char>|
                    crate::model::str_fits(wl) && starts_with(
                        data@,
                        pos as int,
                        enc_sentence_head(t, wi, wl),
                    ) implies (id == wi && lang@ == wl && pos + enc_sentence_head(
                    t,
                    wi,
                    wl,
                ).len() == p2) by {
                    lemma_starts_with_concat(
                        data@,
                        pos as int,
                        tag_of(t, SEN_ID) + enc_u32(wi),
                        tag_of(t, SEN_LANG) + enc_str(wl),
                    );
                }
            }
            Ok(((id, lang), p2))
        },
        Err(e) => {
            proof {
                assert forall|wi: u32, wl: Seq<char>|
                    crate::model::str_fits(wl) && starts_with(
                        data@,
                        pos as int,
                        enc_sentence_head(t, wi, wl),
                    ) implies false by {
                    lemma_starts_with_concat(
                        data@,
                        pos as int,
                        tag_of(t, SEN_ID) + enc_u32(wi),
                        tag_of(t, SEN_LANG) + enc_str(wl),
                    );
                }
            }
            Err(e)
        },
    }
}

#[verifier::rlimit(100)]
#[verifier::spinoff_prover]
fn decode_sentence_parts(t: bool, data: &[u8], pos: usize) -> (r: Result<
    ((u32, String, Vec<Token>), usize),
    DecodeError,
>)
    ensures
        (match r {
            Ok(((id, lang, tokens), end)) => crate::model::str_fits(lang@)
                && crate::model::tokens_fit(tokens.deep_view()) && end == pos + enc_sentence_parts(
                t,
                id,
                lang@,
                tokens.deep_view(),
            ).len() && starts_with(
                data@,
                pos as int,
                enc_sentence_parts(t, id, lang@, tokens.deep_view()),
            ),
            Err(_) => true,
        }),
        forall|wi: u32, wl: Seq<char>, wt: Seq<TokenV>|
            crate::model::str_fits(wl) && crate::model::tokens_fit(wt) && starts_with(
                data@,
                pos as int,
                enc_sentence_parts(t, wi, wl, wt),
            ) ==> (r matches Ok(p) && p.0.0 == wi && p.0.1@ == wl && p.0.2.deep_view() == wt && p.1
                == pos + enc_sentence_parts(t, wi, wl, wt).len()),
{
    let ((id, lang), p2) = match decode_sentence_head(t, data, pos) {
        Ok(p) => p,
        Err(e) => {
            proof {
                assert forall|wi: u32, wl: Seq<char>, wt: Seq<TokenV>|
                    crate::model::str_fits(wl) && crate::model::tokens_fit(wt) && starts_with(
                        data@,
                        pos as int,
                        enc_sentence_parts(t, wi, wl, wt),
                    ) implies false by {
                    lemma_starts_with_concat(
                        data@,
                        pos as int,
                        enc_sentence_head(t, wi, wl),
                        tag_of(t, SEN_TOKENS) + enc_token_list(t, wt),
                    );
                }
            }
            return Err(e);
        },
    };
    match decode_tagged_token_list(t, SEN_TOKENS, data, p2) {
        Ok((tokens, p3)) => {
            proof {
                lemma_starts_with_join(
                    data@,
                    pos as int,
                    enc_sentence_head(t, id, lang@),
                    tag_of(t, SEN_TOKENS) + enc_token_list(t, tokens.deep_view()),
                );
                assert forall|wi: u32, wl: Seq<char>, wt: Seq<TokenV>|
                    crate::model::str_fits(wl) && crate::model::tokens_fit(wt) && starts_with(
                        data@,
                        pos as int,
                        enc_sentence_parts(t, wi, wl, wt),
                    ) implies (id == wi && lang@ == wl && tokens.deep_view() == wt && pos
                    + enc_sentence_parts(t, wi, wl, wt).len() == p3) by {
                    lemma_starts_with_concat(
                        data@,
                        pos as int,
                        enc_sentence_head(t, wi, wl),
                        tag_of(t, SEN_TOKENS) + enc_token_list(t, wt),
                    );
                }
            }
            Ok(((id, lang, tokens), p3))
        },
        Err(e) => {
            proof {
                assert forall|wi: u32, wl: Seq<char>, wt: Seq<TokenV>|
                    crate::model::str_fits(wl) && crate::model::tokens_fit(wt) && starts_with(
                        data@,
                        pos as int,
                        enc_sentence_parts(t, wi, wl, wt),
                    ) implies false by {
                    lemma_starts_with_concat(
                        data@,
                        pos as int,
                        enc_sentence_head(t, wi, wl),
                        tag_of(t, SEN_TOKENS) + enc_token_list(t, wt),
                    );
                }
            }
            Err(e)
        },
    }
}

#[verifier::rlimit(100)]
#[verifier::spinoff_prover]
pub fn decode_sentence(t: bool, data: &[u8], pos: usize) -> (r: Result<
    (Sentence, usize),
    DecodeError,
>)
    ensures
        (match r {
            Ok((v, end)) => sentence_fits(v@) && pos < end && end == pos + enc_sentence(
                t,
                v@,
            ).len() && starts_with(data@, pos as int, enc_sentence(t, v@)),
            Err(_) => true,
        }),
        forall|w: SentenceV|
            sentence_fits(w) && starts_with(data@, pos as int, enc_sentence(t, w)) ==> (r
                matches Ok(p) && p.0@ == w && p.1 == pos + enc_sentence(t, w).len()),
    decreases data@.len() - pos, 0int, 0int,
{
    let ((id, lang, tokens), p3) = match decode_sentence_parts(t, data, pos) {
        Ok(p) => p,
        Err(e) => {
            proof {
                assert forall|w: SentenceV|
                    sentence_fits(w) && starts_with(
                        data@,
                        pos as int,
                        enc_sentence(t, w),
                    ) implies false by {
                    lemma_sentence_units(t, data@, pos as int, w);
                }
            }
            return Err(e);
        },
    };
    let (translations, p4) = match decode_tagged_sentence_list(t, SEN_TRANSLATIONS, data, p3) {
        Ok(p) => p,
        Err(e) => {
            proof {
                assert forall|w: SentenceV|
                    sentence_fits(w) && starts_with(
                        data@,
                        pos as int,
                        enc_sentence(t, w),
                    ) implies false by {
                    lemma_sentence_units(t, data@, pos as int, w);
                    assert(crate::model::str_fits(w.lang));
                    assert(crate::model::tokens_fit(w.tokens));
                    assert(crate::model::sentences_fit(w.translations));
                    assert(p3 == pos + enc_sentence_parts(t, w.id, w.lang, w.tokens).len());
                    assert(starts_with(
                        data@,
                        p3 as int,
                        tag_of(t, SEN_TRANSLATIONS) + enc_sentence_list(t, w.translations),
                    ));
                }
            }
            return Err(e);
        },
    };
    let sen = Sentence { id, lang, tokens, translations };
    proof {
        assert(sen.translations.deep_view() =~= sen@.translations);
        lemma_starts_with_join(
            data@,
            pos as int,
            enc_sentence_parts(t, sen@.id, sen@.lang, sen@.tokens),
            tag_of(t, SEN_TRANSLATIONS) + enc_sentence_list(t, sen@.translations),
        );
        assert(starts_with(data@, pos as int, enc_sentence(t, sen@)));
        assert((tag_of(t, SEN_ID) + enc_u32(sen@.id)).len() >= 4);
        assert forall|w: SentenceV|
            sentence_fits(w) && starts_with(data@, pos as int, enc_sentence(t, w)) implies (sen@
            == w && pos + enc_sentence(t, w).len() == p4) by {
            lemma_sentence_units(t, data@, pos as int, w);
            assert(crate::model::str_fits(w.lang));
            assert(crate::model::tokens_fit(w.tokens));
            assert(crate::model::sentences_fit(w.translations));
            assert(p3 == pos + enc_sentence_parts(t, w.id, w.lang, w.tokens).len());
            assert(starts_with(
                data@,
                p3 as int,
                tag_of(t, SEN_TRANSLATIONS) + enc_sentence_list(t, w.translations),
            ));
            assert(sen@.id == w.id);
            assert(sen@.lang == w.lang);
            assert(sen@.tokens == w.tokens);
            assert(sen@.translations == w.translations);
            assert(sen@ =~= w);
        }
    }
    Ok((sen, p4))
}

#[verifier::rlimit(100)]
#[verifier::spinoff_prover]
fn decode_sentences_from(t: bool, data: &[u8], pos: usize, n: u32) -> (r: Result<
    (Vec<Sentence>, usize),
    DecodeError,
>)
    requires
        pos <= data@.len(),
    ensures
        (match r {
            Ok((vs, end)) => vs@.len() == n && (forall|j: int|
                0 <= j < vs@.len() ==> sentence_fits(#[trigger] vs.deep_view()[j])) && end == pos
                + enc_sentences(t, vs.deep_view()).len() && starts_with(
                data@,
                pos as int,
                enc_sentences(t, vs.deep_view()),
            ),
            Err(_) => true,
        }),
        forall|ws: Seq<SentenceV>|
            ws.len() == n && (forall|j: int| 0 <= j < ws.len() ==> sentence_fits(#[trigger] ws[j]))
                && starts_with(data@, pos as int, enc_sentences(t, ws)) ==> (r matches Ok(p)
                && p.0.deep_view() == ws && p.1 == pos + enc_sentences(t, ws).len()),
    decreases data@.len() - pos, 1int, n,
{
    if n == 0 {
        let vs: Vec<Sentence> = Vec::new();
        proof {
            assert(vs.deep_view() =~= Seq::<SentenceV>::empty());
            assert(data@.subrange(pos as int, pos as int) =~= Seq::<u8>::empty());
            assert forall|ws: Seq<SentenceV>|
                ws.len() == n && starts_with(data@, pos as int, enc_sentences(t, ws)) implies vs.deep_view()
                == ws by {
                assert(ws =~= Seq::<SentenceV>::empty());
            }
        }
        return Ok((vs, pos));
    }
    let (sen, p1) = match decode_sentence(t, data, pos) {
        Ok(p) => p,
        Err(e) => {
            proof {
                assert forall|ws: Seq<SentenceV>|
                    ws.len() == n && (forall|j: int|
                        0 <= j < ws.len() ==> sentence_fits(#[trigger] ws[j])) && starts_with(
                        data@,
                        pos as int,
                        enc_sentences(t, ws),
                    ) implies false by {
                    lemma_starts_with_concat(
                        data@,
                        pos as int,
                        enc_sentence(t, ws[0]),
                        enc_sentences(t, ws.drop_first()),
                    );
                }
            }
            return Err(e);
        },
    };
    let (mut rest, end) = match decode_sentences_from(t, data, p1, n - 1) {
        Ok(p) => p,
        Err(e) => {
            proof {
                assert forall|ws: Seq<SentenceV>|
                    ws.len() == n && (forall|j: int|
                        0 <= j < ws.len() ==> sentence_fits(#[trigger] ws[j])) && starts_with(
                        data@,
                        pos as int,
                        enc_sentences(t, ws),
                    ) implies false by {
                    lemma_starts_with_concat(
                        data@,
                        pos as int,
                        enc_sentence(t, ws[0]),
                        enc_sentences(t, ws.drop_first()),
                    );
                    assert(ws.drop_first().len() == n - 1);
                }
            }
            return Err(e);
        },
    };
    let ghost rest0 = rest.deep_view();
    rest.insert(0, sen);
    proof {
        let dv = rest.deep_view();
        assert(dv =~= seq![sen@] + rest0);
        assert(dv[0] == sen@);
        assert(dv.drop_first() =~= rest0);
        lemma_starts_with_join(data@, pos as int, enc_sentence(t, sen@), enc_sentences(t, rest0));
        assert(enc_sentences(t, dv) == enc_sentence(t, sen@) + enc_sentences(t, rest0));
        assert forall|ws: Seq<SentenceV>|
            ws.len() == n && (forall|j: int| 0 <= j < ws.len() ==> sentence_fits(#[trigger] ws[j]))
                && starts_with(data@, pos as int, enc_sentences(t, ws)) implies (dv == ws && pos
            + enc_sentences(t, ws).len() == end) by {
            lemma_starts_with_concat(
                data@,
                pos as int,
                enc_sentence(t, ws[0]),
                enc_sentences(t, ws.drop_first()),
            );
            assert(ws.drop_first().len() == n - 1);
            assert forall|j: int| 0 <= j < ws.drop_first().len() implies sentence_fits(
                #[trigger] ws.drop_first()[j],
            ) by {
                assert(ws.drop_first()[j] == ws[j + 1]);
            }
            assert(rest0 == ws.drop_first());
            assert(dv =~= ws);
        }
    }
    Ok((rest, end))
}

#[verifier::rlimit(100)]
pub fn decode_sentence_list(t: bool, data: &[u8], pos: usize) -> (r: Result<
    (Vec<Sentence>, usize),
    DecodeError,
>)
    ensures
        (match r {
            Ok((vs, end)) => crate::model::sentences_fit(vs.deep_view()) && end == pos
                + enc_sentence_list(t, vs.deep_view()).len() && starts_with(
                data@,
                pos as int,
                enc_sentence_list(t, vs.deep_view()),
            ),
            Err(_) => true,
        }),
        forall|ws: Seq<SentenceV>|
            crate::model::sentences_fit(ws) && starts_with(
                data@,
                pos as int,
                enc_sentence_list(t, ws),
            ) ==> (r matches Ok(p) && p.0.deep_view() == ws && p.1 == pos + enc_sentence_list(
                t,
                ws,
            ).len()),
    decreases data@.len() - pos, 2int, 0int,
{
    let (n, p1) = match decode_u32(data, pos) {
        Ok(p) => p,
        Err(e) => {
            proof {
                assert forall|ws: Seq<SentenceV>|
                    crate::model::sentences_fit(ws) && starts_with(
                        data@,
                        pos as int,
                        enc_sentence_list(t, ws),
                    ) implies false by {
                    lemma_starts_with_concat(
                        data@,
                        pos as int,
                        enc_u32(ws.len() as u32),
                        enc_sentences(t, ws),
                    );
                }
            }
            return Err(e);
        },
    };
    match decode_sentences_from(t, data, p1, n) {
        Ok((vs, end)) => {
            proof {
                lemma_starts_with_join(
                    data@,
                    pos as int,
                    enc_u32(n),
                    enc_sentences(t, vs.deep_view()),
                );
                assert(vs.deep_view().len() as u32 == n);
                assert(enc_sentence_list(t, vs.deep_view()) == enc_u32(n) + enc_sentences(
                    t,
                    vs.deep_view(),
                ));
                assert forall|ws: Seq<SentenceV>|
                    crate::model::sentences_fit(ws) && starts_with(
                        data@,
                        pos as int,
                        enc_sentence_list(t, ws),
                    ) implies (vs.deep_view() == ws && pos + enc_sentence_list(t, ws).len()
                    == end) by {
                    lemma_starts_with_concat(
                        data@,
                        pos as int,
                        enc_u32(ws.len() as u32),
                        enc_sentences(t, ws),
                    );
                    assert(ws.len() == n);
                }
            }
            Ok((vs, end))
        },
        Err(e) => {
            proof {
                assert forall|ws: Seq<SentenceV>|
                    crate::model::sentences_fit(ws) && starts_with(
                        data@,
                        pos as int,
                        enc_sentence_list(t, ws),
                    ) implies false by {
                    lemma_starts_with_concat(
                        data@,
                        pos as int,
                        enc_u32(ws.len() as u32),
                        enc_sentences(t, ws),
                    );
                    assert(ws.len() == n);
                }
            }
            Err(e)
        },
    }
}

fn decode_tagged_sentence_list(t: bool, tag: u8, data: &[u8], pos: usize) -> (r: Result<
    (Vec<Sentence>, usize),
    DecodeError,
>)
    ensures
        (match r {
            Ok((vs, end)) => crate::model::sentences_fit(vs.deep_view()) && end == pos + (tag_of(
                t,
                tag,
            ) + enc_sentence_list(t, vs.deep_view())).len() && starts_with(
                data@,
                pos as int,
                tag_of(t, tag) + enc_sentence_list(t, vs.deep_view()),
            ),
            Err(_) => true,
        }),
        forall|ws: Seq<SentenceV>|
            crate::model::sentences_fit(ws) && starts_with(
                data@,
                pos as int,
                tag_of(t, tag) + enc_sentence_list(t, ws),
            ) ==> (r matches Ok(p) && p.0.deep_view() == ws && p.1 == pos + (tag_of(t, tag)
                + enc_sentence_list(t, ws)).len()),
    decreases data@.len() - pos, 3int, 0int,
{
    let p0 = match expect_tag(t, tag, data, pos) {
        Ok(p) => p,
        Err(e) => {
            proof {
                assert forall|ws: Seq<SentenceV>|
                    crate::model::sentences_fit(ws) && starts_with(
                        data@,
                        pos as int,
                        tag_of(t, tag) + enc_sentence_list(t, ws),
                    ) implies false by {
                    lemma_starts_with_concat(
                        data@,
                        pos as int,
                        tag_of(t, tag),
                        enc_sentence_list(t, ws),
                    );
                }
            }
            return Err(e);
        },
    };
    match decode_sentence_list(t, data, p0) {
        Ok((vs, end)) => {
            proof {
                lemma_starts_with_join(
                    data@,
                    pos as int,
                    tag_of(t, tag),
                    enc_sentence_list(t, vs.deep_view()),
                );
                assert forall|ws: Seq<SentenceV>|
                    crate::model::sentences_fit(ws) && starts_with(
                        data@,
                        pos as int,
                        tag_of(t, tag) + enc_sentence_list(t, ws),
                    ) implies vs.deep_view() == ws by {
                    lemma_starts_with_concat(
                        data@,
                        pos as int,
                        tag_of(t, tag),
                        enc_sentence_list(t, ws),
                    );
                }
            }
            Ok((vs, end))
        },
        Err(e) => {
            proof {
                assert forall|ws: Seq<SentenceV>|
                    crate::model::sentences_fit(ws) && starts_with(
                        data@,
                        pos as int,
                        tag_of(t, tag) + enc_sentence_list(t, ws),
                    ) implies false by {
                    lemma_starts_with_concat(
                        data@,
                        pos as int,
                        tag_of(t, tag),
                        enc_sentence_list(t, ws),
                    );
                }
            }
            Err(e)
        },
    }
}

/// Splits an occurrence of an author's encoding into its three field units.
proof fn lemma_author_units(t: bool, data: Seq<u8>, pos: int, w: AuthorV)
    requires
        starts_with(data, pos, enc_author(t, w)),
    ensures
        starts_with(data, pos, tag_of(t, AUT_FIRST_NAME) + enc_str(w.first_name)),
        starts_with(
            data,
            pos + (tag_of(t, AUT_FIRST_NAME) + enc_str(w.first_name)).len(),
            tag_of(t, AUT_LAST_NAME) + enc_str(w.last_name),
        ),
        starts_with(
            data,
            pos + (tag_of(t, AUT_FIRST_NAME) + enc_str(w.first_name)).len() + (tag_of(
                t,
                AUT_LAST_NAME,
            ) + enc_str(w.last_name)).len(),
            tag_of(t, AUT_MAIL) + enc_opt_str(w.mail),
        ),
{
    let u1 = tag_of(t, AUT_FIRST_NAME) + enc_str(w.first_name);
    let u2 = tag_of(t, AUT_LAST_NAME) + enc_str(w.last_name);
    let u3 = tag_of(t, AUT_MAIL) + enc_opt_str(w.mail);
    lemma_starts_with_concat(data, pos, u1 + u2, u3);
    lemma_starts_with_concat(data, pos, u1, u2);
}

#[verifier::rlimit(100)]
#[verifier::spinoff_prover]
pub fn decode_author(t: bool, data: &[u8], pos: usize) -> (r: Result<(Author, usize), DecodeError>)
    ensures
        (match r {
            Ok((v, end)) => author_fits(v@) && end == pos + enc_author(t, v@).len() && starts_with(
                data@,
                pos as int,
                enc_author(t, v@),
            ),
            Err(_) => true,
        }),
        forall|w: AuthorV|
            author_fits(w) && starts_with(data@, pos as int, enc_author(t, w)) ==> (r matches Ok(p)
                && p.0@ == w && p.1 == pos + enc_author(t, w).len()),
{
    let (first_name, p1) = match decode_tagged_str(t, AUT_FIRST_NAME, data, pos) {
        Ok(p) => p,
        Err(e) => {
            proof {
                assert forall|w: AuthorV|
                    author_fits(w) && starts_with(data@, pos as int, enc_author(t, w)) implies false by {
                    lemma_author_units(t, data@, pos as int, w);
                }
            }
            return Err(e);
        },
    };
    let (last_name, p2) = match decode_tagged_str(t, AUT_LAST_NAME, data, p1) {
        Ok(p) => p,
        Err(e) => {
            proof {
                assert forall|w: AuthorV|
                    author_fits(w) && starts_with(data@, pos as int, enc_author(t, w)) implies false by {
                    lemma_author_units(t, data@, pos as int, w);
                }
            }
            return Err(e);
        },
    };
    let (mail, p3) = match decode_tagged_opt_str(t, AUT_MAIL, data, p2) {
        Ok(p) => p,
        Err(e) => {
            proof {
                assert forall|w: AuthorV|
                    author_fits(w) && starts_with(data@, pos as int, enc_author(t, w)) implies false by {
                    lemma_author_units(t, data@, pos as int, w);
                }
            }
            return Err(e);
        },
    };
    let aut = Author { first_name, last_name, mail };
    proof {
        let u1 = tag_of(t, AUT_FIRST_NAME) + enc_str(aut@.first_name);
        let u2 = tag_of(t, AUT_LAST_NAME) + enc_str(aut@.last_name);
        let u3 = tag_of(t, AUT_MAIL) + enc_opt_str(aut@.mail);
        lemma_starts_with_join(data@, pos as int, u1, u2);
        lemma_starts_with_join(data@, pos as int, u1 + u2, u3);
        assert(starts_with(data@, pos as int, enc_author(t, aut@)));
        assert forall|w: AuthorV|
            author_fits(w) && starts_with(data@, pos as int, enc_author(t, w)) implies (aut@ == w
            && pos + enc_author(t, w).len() == p3) by {
            lemma_author_units(t, data@, pos as int, w);
            assert(aut@ =~= w);
        }
    }
    Ok((aut, p3))
}

#[verifier::rlimit(100)]
#[verifier::spinoff_prover]
fn decode_authors_from(t: bool, data: &[u8], pos: usize, n: u32) -> (r: Result<
    (Vec<Author>, usize),
    DecodeError,
>)
    requires
        pos <= data@.len(),
    ensures
        (match r {
            Ok((vs, end)) => vs@.len() == n && (forall|j: int|
                0 <= j < vs@.len() ==> author_fits(#[trigger] vs.deep_view()[j])) && end == pos
                + enc_authors(t, vs.deep_view()).len() && starts_with(
                data@,
                pos as int,
                enc_authors(t, vs.deep_view()),
            ),
            Err(_) => true,
        }),
        forall|ws: Seq<AuthorV>|
            ws.len() == n && (forall|j: int| 0 <= j < ws.len() ==> author_fits(#[trigger] ws[j]))
                && starts_with(data@, pos as int, enc_authors(t, ws)) ==> (r matches Ok(p)
                && p.0.deep_view() == ws && p.1 == pos + enc_authors(t, ws).len()),
    decreases n,
{
    if n == 0 {
        let vs: Vec<Author> = Vec::new();
        proof {
            assert(vs.deep_view() =~= Seq::<AuthorV>::empty());
            assert(data@.subrange(pos as int, pos as int) =~= Seq::<u8>::empty());
            assert forall|ws: Seq<AuthorV>|
                ws.len() == n && starts_with(data@, pos as int, enc_authors(t, ws)) implies vs.deep_view()
                == ws by {
                assert(ws =~= Seq::<AuthorV>::empty());
            }
        }
        return Ok((vs, pos));
    }
    let (aut, p1) = match decode_author(t, data, pos) {
        Ok(p) => p,
        Err(e) => {
            proof {
                assert forall|ws: Seq<AuthorV>|
                    ws.len() == n && (forall|j: int|
                        0 <= j < ws.len() ==> author_fits(#[trigger] ws[j])) && starts_with(
                        data@,
                        pos as int,
                        enc_authors(t, ws),
                    ) implies false by {
                    lemma_starts_with_concat(
                        data@,
                        pos as int,
                        enc_author(t, ws[0]),
                        enc_authors(t, ws.drop_first()),
                    );
                }
            }
            return Err(e);
        },
    };
    let (mut rest, end) = match decode_authors_from(t, data, p1, n - 1) {
        Ok(p) => p,
        Err(e) => {
            proof {
                assert forall|ws: Seq<AuthorV>|
                    ws.len() == n && (forall|j: int|
                        0 <= j < ws.len() ==> author_fits(#[trigger] ws[j])) && starts_with(
                        data@,
                        pos as int,
                        enc_authors(t, ws),
                    ) implies false by {
                    lemma_starts_with_concat(
                        data@,
                        pos as int,
                        enc_author(t, ws[0]),
                        enc_authors(t, ws.drop_first()),
                    );
                    assert(ws.drop_first().len() == n - 1);
                }
            }
            return Err(e);
        },
    };
    let ghost rest0 = rest.deep_view();
    rest.insert(0, aut);
    proof {
        let dv = rest.deep_view();
        assert(dv =~= seq![aut@] + rest0);
        assert(dv[0] == aut@);
        assert(dv.drop_first() =~= rest0);
        lemma_starts_with_join(data@, pos as int, enc_author(t, aut@), enc_authors(t, rest0));
        assert(enc_authors(t, dv) == enc_author(t, aut@) + enc_authors(t, rest0));
        assert forall|ws: Seq<AuthorV>|
            ws.len() == n && (forall|j: int| 0 <= j < ws.len() ==> author_fits(#[trigger] ws[j]))
                && starts_with(data@, pos as int, enc_authors(t, ws)) implies (dv == ws && pos
            + enc_authors(t, ws).len() == end) by {
            lemma_starts_with_concat(
                data@,
                pos as int,
                enc_author(t, ws[0]),
                enc_authors(t, ws.drop_first()),
            );
            assert(ws.drop_first().len() == n - 1);
            assert forall|j: int| 0 <= j < ws.drop_first().len() implies author_fits(
                #[trigger] ws.drop_first()[j],
            ) by {
                assert(ws.drop_first()[j] == ws[j + 1]);
            }
            assert(rest0 == ws.drop_first());
            assert(dv =~= ws);
        }
    }
    Ok((rest, end))
}

#[verifier::rlimit(100)]
pub fn decode_author_list(t: bool, data: &[u8], pos: usize) -> (r: Result<
    (Vec<Author>, usize),
    DecodeError,
>)
    ensures
        (match r {
            Ok((vs, end)) => crate::model::authors_fit(vs.deep_view()) && end == pos
                + enc_author_list(t, vs.deep_view()).len() && starts_with(
                data@,
                pos as int,
                enc_author_list(t, vs.deep_view()),
            ),
            Err(_) => true,
        }),
        forall|ws: Seq<AuthorV>|
            crate::model::authors_fit(ws) && starts_with(data@, pos as int, enc_author_list(t, ws))
                ==> (r matches Ok(p) && p.0.deep_view() == ws && p.1 == pos + enc_author_list(
                t,
                ws,
            ).len()),
{
    let (n, p1) = match decode_u32(data, pos) {
        Ok(p) => p,
        Err(e) => {
            proof {
                assert forall|ws: Seq<AuthorV>|
                    crate::model::authors_fit(ws) && starts_with(
                        data@,
                        pos as int,
                        enc_author_list(t, ws),
                    ) implies false by {
                    lemma_starts_with_concat(
                        data@,
                        pos as int,
                        enc_u32(ws.len() as u32),
                        enc_authors(t, ws),
                    );
                }
            }
            return Err(e);
        },
    };
    match decode_authors_from(t, data, p1, n) {
        Ok((vs, end)) => {
            proof {
                lemma_starts_with_join(
                    data@,
                    pos as int,
                    enc_u32(n),
                    enc_authors(t, vs.deep_view()),
                );
                assert(vs.deep_view().len() as u32 == n);
                assert(enc_author_list(t, vs.deep_view()) == enc_u32(n) + enc_authors(
                    t,
                    vs.deep_view(),
                ));
                assert forall|ws: Seq<AuthorV>|
                    crate::model::authors_fit(ws) && starts_with(
                        data@,
                        pos as int,
                        enc_author_list(t, ws),
                    ) implies (vs.deep_view() == ws && pos + enc_author_list(t, ws).len()
                    == end) by {
                    lemma_starts_with_concat(
                        data@,
                        pos as int,
                        enc_u32(ws.len() as u32),
                        enc_authors(t, ws),
                    );
                    assert(ws.len() == n);
                }
            }
            Ok((vs, end))
        },
        Err(e) => {
            proof {
                assert forall|ws: Seq<AuthorV>|
                    crate::model::authors_fit(ws) && starts_with(
                        data@,
                        pos as int,
                        enc_author_list(t, ws),
                    ) implies false by {
                    lemma_starts_with_concat(
                        data@,
                        pos as int,
                        enc_u32(ws.len() as u32),
                        enc_authors(t, ws),
                    );
                    assert(ws.len() == n);
                }
            }
            Err(e)
        },
    }
}

fn decode_tagged_author_list(t: bool, tag: u8, data: &[u8], pos: usize) -> (r: Result<
    (Vec<Author>, usize),
    DecodeError,
>)
    ensures
        (match r {
            Ok((vs, end)) => crate::model::authors_fit(vs.deep_view()) && end == pos + (tag_of(
                t,
                tag,
            ) + enc_author_list(t, vs.deep_view())).len() && starts_with(
                data@,
                pos as int,
                tag_of(t, tag) + enc_author_list(t, vs.deep_view()),
            ),
            Err(_) => true,
        }),
        forall|ws: Seq<AuthorV>|
            crate::model::authors_fit(ws) && starts_with(
                data@,
                pos as int,
                tag_of(t, tag) + enc_author_list(t, ws),
            ) ==> (r matches Ok(p) && p.0.deep_view() == ws && p.1 == pos + (tag_of(t, tag)
                + enc_author_list(t, ws)).len()),
{
    let p0 = match expect_tag(t, tag, data, pos) {
        Ok(p) => p,
        Err(e) => {
            proof {
                assert forall|ws: Seq<AuthorV>|
                    crate::model::authors_fit(ws) && starts_with(
                        data@,
                        pos as int,
                        tag_of(t, tag) + enc_author_list(t, ws),
                    ) implies false by {
                    lemma_starts_with_concat(
                        data@,
                        pos as int,
                        tag_of(t, tag),
                        enc_author_list(t, ws),
                    );
                }
            }
            return Err(e);
        },
    };
    match decode_author_list(t, data, p0) {
        Ok((vs, end)) => {
            proof {
                lemma_starts_with_join(
                    data@,
                    pos as int,
                    tag_of(t, tag),
                    enc_author_list(t, vs.deep_view()),
                );
                assert forall|ws: Seq<AuthorV>|
                    crate::model::authors_fit(ws) && starts_with(
                        data@,
                        pos as int,
                        tag_of(t, tag) + enc_author_list(t, ws),
                    ) implies vs.deep_view() == ws by {
                    lemma_starts_with_concat(
                        data@,
                        pos as int,
                        tag_of(t, tag),
                        enc_author_list(t, ws),
                    );
                }
            }
            Ok((vs, end))
        },
        Err(e) => {
            proof {
                assert forall|ws: Seq<AuthorV>|
                    crate::model::authors_fit(ws) && starts_with(
                        data@,
                        pos as int,
                        tag_of(t, tag) + enc_author_list(t, ws),
                    ) implies false by {
                    lemma_starts_with_concat(
                        data@,
                        pos as int,
                        tag_of(t, tag),
                        enc_author_list(t, ws),
                    );
                }
            }
            Err(e)
        },
    }
}

/// Splits an occurrence of a metadata record's encoding into its six units.
proof fn lemma_metadata_units(t: bool, data: Seq<u8>, pos: int, w: MetadataV)
    requires
        starts_with(data, pos, enc_metadata(t, w)),
    ensures
        starts_with(data, pos, tag_of(t, MET_AUTHORS) + enc_author_list(t, w.authors)),
        starts_with(
            data,
            pos + (tag_of(t, MET_AUTHORS) + enc_author_list(t, w.authors)).len(),
            tag_of(t, MET_CREATED) + enc_opt_i64(w.created),
        ),
        starts_with(
            data,
            pos + (tag_of(t, MET_AUTHORS) + enc_author_list(t, w.authors)).len() + (tag_of(
                t,
                MET_CREATED,
            ) + enc_opt_i64(w.created)).len(),
            tag_of(t, MET_DESCRIPTION) + enc_opt_str(w.description),
        ),
        starts_with(
            data,
            pos + (tag_of(t, MET_AUTHORS) + enc_author_list(t, w.authors)).len() + (tag_of(
                t,
                MET_CREATED,
            ) + enc_opt_i64(w.created)).len() + (tag_of(t, MET_DESCRIPTION) + enc_opt_str(
                w.description,
            )).len(),
            tag_of(t, MET_MODIFIED) + enc_opt_i64(w.modified),
        ),
        starts_with(
            data,
            pos + (tag_of(t, MET_AUTHORS) + enc_author_list(t, w.authors)).len() + (tag_of(
                t,
                MET_CREATED,
            ) + enc_opt_i64(w.created)).len() + (tag_of(t, MET_DESCRIPTION) + enc_opt_str(
                w.description,
            )).len() + (tag_of(t, MET_MODIFIED) + enc_opt_i64(w.modified)).len(),
            tag_of(t, MET_NAME) + enc_str(w.name),
        ),
        starts_with(
            data,
            pos + (tag_of(t, MET_AUTHORS) + enc_author_list(t, w.authors)).len() + (tag_of(
                t,
                MET_CREATED,
            ) + enc_opt_i64(w.created)).len() + (tag_of(t, MET_DESCRIPTION) + enc_opt_str(
                w.description,
            )).len() + (tag_of(t, MET_MODIFIED) + enc_opt_i64(w.modified)).len() + (tag_of(
                t,
                MET_NAME,
            ) + enc_str(w.name)).len(),
            tag_of(t, MET_VERSION) + enc_u16(w.version),
        ),
{
    let u1 = tag_of(t, MET_AUTHORS) + enc_author_list(t, w.authors);
    let u2 = tag_of(t, MET_CREATED) + enc_opt_i64(w.created);
    let u3 = tag_of(t, MET_DESCRIPTION) + enc_opt_str(w.description);
    let u4 = tag_of(t, MET_MODIFIED) + enc_opt_i64(w.modified);
    let u5 = tag_of(t, MET_NAME) + enc_str(w.name);
    let u6 = tag_of(t, MET_VERSION) + enc_u16(w.version);
    lemma_starts_with_concat(data, pos, u1 + u2 + u3 + u4 + u5, u6);
    lemma_starts_with_concat(data, pos, u1 + u2 + u3 + u4, u5);
    lemma_starts_with_concat(data, pos, u1 + u2 + u3, u4);
    lemma_starts_with_concat(data, pos, u1 + u2, u3);
    lemma_starts_with_concat(data, pos, u1, u2);
}

#[verifier::rlimit(100)]
#[verifier::spinoff_prover]
pub fn decode_metadata(t: bool, data: &[u8], pos: usize) -> (r: Result<
    (Metadata, usize),
    DecodeError,
>)
    ensures
        (match r {
            Ok((v, end)) => metadata_fits(v@) && end == pos + enc_metadata(t, v@).len()
                && starts_with(data@, pos as int, enc_metadata(t, v@)),
            Err(_) => true,
        }),
        forall|w: MetadataV|
            metadata_fits(w) && starts_with(data@, pos as int, enc_metadata(t, w)) ==> (r
                matches Ok(p) && p.0@ == w && p.1 == pos + enc_metadata(t, w).len()),
{
    let (authors, p1) = match decode_tagged_author_list(t, MET_AUTHORS, data, pos) {
        Ok(p) => p,
        Err(e) => {
            proof {
                assert forall|w: MetadataV|
                    metadata_fits(w) && starts_with(
                        data@,
                        pos as int,
                        enc_metadata(t, w),
                    ) implies false by {
                    lemma_metadata_units(t, data@, pos as int, w);
                }
            }
            return Err(e);
        },
    };
    let (created, p2) = match decode_tagged_opt_i64(t, MET_CREATED, data, p1) {
        Ok(p) => p,
        Err(e) => {
            proof {
                assert forall|w: MetadataV|
                    metadata_fits(w) && starts_with(
                        data@,
                        pos as int,
                        enc_metadata(t, w),
                    ) implies false by {
                    lemma_metadata_units(t, data@, pos as int, w);
                }
            }
            return Err(e);
        },
    };
    let (description, p3) = match decode_tagged_opt_str(t, MET_DESCRIPTION, data, p2) {
        Ok(p) => p,
        Err(e) => {
            proof {
                assert forall|w: MetadataV|
                    metadata_fits(w) && starts_with(
                        data@,
                        pos as int,
                        enc_metadata(t, w),
                    ) implies false by {
                    lemma_metadata_units(t, data@, pos as int, w);
                }
            }
            return Err(e);
        },
    };
    let (modified, p4) = match decode_tagged_opt_i64(t, MET_MODIFIED, data, p3) {
        Ok(p) => p,
        Err(e) => {
            proof {
                assert forall|w: MetadataV|
                    metadata_fits(w) && starts_with(
                        data@,
                        pos as int,
                        enc_metadata(t, w),
                    ) implies false by {
                    lemma_metadata_units(t, data@, pos as int, w);
                }
            }
            return Err(e);
        },
    };
    let (name, p5) = match decode_tagged_str(t, MET_NAME, data, p4) {
        Ok(p) => p,
        Err(e) => {
            proof {
                assert forall|w: MetadataV|
                    metadata_fits(w) && starts_with(
                        data@,
                        pos as int,
                        enc_metadata(t, w),
                    ) implies false by {
                    lemma_metadata_units(t, data@, pos as int, w);
                }
            }
            return Err(e);
        },
    };
    let (version, p6) = match decode_tagged_u16(t, MET_VERSION, data, p5) {
        Ok(p) => p,
        Err(e) => {
            proof {
                assert forall|w: MetadataV|
                    metadata_fits(w) && starts_with(
                        data@,
                        pos as int,
                        enc_metadata(t, w),
                    ) implies false by {
                    lemma_metadata_units(t, data@, pos as int, w);
                }
            }
            return Err(e);
        },
    };
    let met = Metadata { authors, created, description, modified, name, version };
    proof {
        assert(met.authors.deep_view() =~= met@.authors);
        let u1 = tag_of(t, MET_AUTHORS) + enc_author_list(t, met@.authors);
        let u2 = tag_of(t, MET_CREATED) + enc_opt_i64(met@.created);
        let u3 = tag_of(t, MET_DESCRIPTION) + enc_opt_str(met@.description);
        let u4 = tag_of(t, MET_MODIFIED) + enc_opt_i64(met@.modified);
        let u5 = tag_of(t, MET_NAME) + enc_str(met@.name);
        let u6 = tag_of(t, MET_VERSION) + enc_u16(met@.version);
        lemma_starts_with_join(data@, pos as int, u1, u2);
        lemma_starts_with_join(data@, pos as int, u1 + u2, u3);
        lemma_starts_with_join(data@, pos as int, u1 + u2 + u3, u4);
        lemma_starts_with_join(data@, pos as int, u1 + u2 + u3 + u4, u5);
        lemma_starts_with_join(data@, pos as int, u1 + u2 + u3 + u4 + u5, u6);
        assert(starts_with(data@, pos as int, enc_metadata(t, met@)));
        assert forall|w: MetadataV|
            metadata_fits(w) && starts_with(data@, pos as int, enc_metadata(t, w)) implies (met@
            == w && pos + enc_metadata(t, w).len() == p6) by {
            lemma_metadata_units(t, data@, pos as int, w);
            assert(met@ =~= w);
        }
    }
    Ok((met, p6))
}

#[verifier::rlimit(100)]
#[verifier::spinoff_prover]
fn decode_opt_metadata(t: bool, data: &[u8], pos: usize) -> (r: Result<
    (Option<Metadata>, usize),
    DecodeError,
>)
    ensures
        (match r {
            Ok((o, end)) => (o matches Some(m) ==> metadata_fits(m@)) && end == pos
                + enc_opt_metadata(t, opt_metadata_view(o)).len() && starts_with(
                data@,
                pos as int,
                enc_opt_metadata(t, opt_metadata_view(o)),
            ),
            Err(_) => true,
        }),
        forall|w: Option<MetadataV>|
            (w matches Some(m) ==> metadata_fits(m)) && starts_with(
                data@,
                pos as int,
                enc_opt_metadata(t, w),
            ) ==> (r matches Ok(p) && opt_metadata_view(p.0) == w && p.1 == pos + enc_opt_metadata(
                t,
                w,
            ).len()),
{
    let (marker, body) = match decode_u8(data, pos) {
        Ok(p) => p,
        Err(e) => {
            proof {
                assert forall|w: Option<MetadataV>|
                    (w matches Some(m) ==> metadata_fits(m)) && starts_with(
                        data@,
                        pos as int,
                        enc_opt_metadata(t, w),
                    ) implies false by {
                    match w {
                        None => {
                            assert(starts_with(data@, pos as int, enc_u8(0)));
                        },
                        Some(m) => {
                            lemma_starts_with_concat(data@, pos as int, seq![1u8], enc_metadata(t, m));
                            assert(starts_with(data@, pos as int, enc_u8(1)));
                        },
                    }
                }
            }
            return Err(e);
        },
    };
    if marker == 0 {
        proof {
            assert(starts_with(data@, pos as int, enc_u8(marker)));
            assert(data@.subrange(pos as int, pos + 1) =~= enc_opt_metadata(t, None::<MetadataV>));
            assert forall|w: Option<MetadataV>|
                (w matches Some(m) ==> metadata_fits(m)) && starts_with(
                    data@,
                    pos as int,
                    enc_opt_metadata(t, w),
                ) implies w is None by {
                if let Some(m) = w {
                    lemma_starts_with_concat(data@, pos as int, seq![1u8], enc_metadata(t, m));
                    assert(starts_with(data@, pos as int, enc_u8(1)));
                }
            }
        }
        return Ok((None, body));
    }
    if marker != 1 {
        proof {
            assert forall|w: Option<MetadataV>|
                (w matches Some(m) ==> metadata_fits(m)) && starts_with(
                    data@,
                    pos as int,
                    enc_opt_metadata(t, w),
                ) implies false by {
                match w {
                    None => {
                        assert(starts_with(data@, pos as int, enc_u8(0)));
                    },
                    Some(m) => {
                        lemma_starts_with_concat(data@, pos as int, seq![1u8], enc_metadata(t, m));
                        assert(starts_with(data@, pos as int, enc_u8(1)));
                    },
                }
            }
        }
        return Err(DecodeError::Discriminant { offset: pos });
    }
    match decode_metadata(t, data, body) {
        Ok((m, end)) => {
            proof {
                assert(starts_with(data@, pos as int, enc_u8(1)));
                lemma_starts_with_join(data@, pos as int, seq![1u8], enc_metadata(t, m@));
                assert(seq![1u8] + enc_metadata(t, m@) == enc_opt_metadata(t, Some(m@)));
                assert forall|w: Option<MetadataV>|
                    (w matches Some(wm) ==> metadata_fits(wm)) && starts_with(
                        data@,
                        pos as int,
                        enc_opt_metadata(t, w),
                    ) implies (opt_metadata_view(Some(m)) == w && pos + enc_opt_metadata(
                    t,
                    w,
                ).len() == end) by {
                    match w {
                        None => {
                            assert(starts_with(data@, pos as int, enc_u8(0)));
                        },
                        Some(wm) => {
                            lemma_starts_with_concat(data@, pos as int, seq![1u8], enc_metadata(t, wm));
                        },
                    }
                }
            }
            Ok((Some(m), end))
        },
        Err(e) => {
            proof {
                assert forall|w: Option<MetadataV>|
                    (w matches Some(wm) ==> metadata_fits(wm)) && starts_with(
                        data@,
                        pos as int,
                        enc_opt_metadata(t, w),
                    ) implies false by {
                    match w {
                        None => {
                            assert(starts_with(data@, pos as int, enc_u8(0)));
                        },
                        Some(wm) => {
                            lemma_starts_with_concat(data@, pos as int, seq![1u8], enc_metadata(t, wm));
                        },
                    }
                }
            }
            Err(e)
        },
    }
}

/// Splits an occurrence of a document's encoding into its four field units.
proof fn lemma_document_units(t: bool, data: Seq<u8>, pos: int, w: DocumentV)
    requires
        starts_with(data, pos, enc_document(t, w)),
    ensures
        starts_with(data, pos, tag_of(t, DOC_DESCRIPTION) + enc_opt_str(w.description)),
        starts_with(
            data,
            pos + (tag_of(t, DOC_DESCRIPTION) + enc_opt_str(w.description)).len(),
            tag_of(t, DOC_ID) + enc_u32(w.id),
        ),
        starts_with(
            data,
            pos + (tag_of(t, DOC_DESCRIPTION) + enc_opt_str(w.description)).len() + (tag_of(
                t,
                DOC_ID,
            ) + enc_u32(w.id)).len(),
            tag_of(t, DOC_SENTENCES) + enc_sentence_list(t, w.sentences),
        ),
        starts_with(
            data,
            pos + (tag_of(t, DOC_DESCRIPTION) + enc_opt_str(w.description)).len() + (tag_of(
                t,
                DOC_ID,
            ) + enc_u32(w.id)).len() + (tag_of(t, DOC_SENTENCES) + enc_sentence_list(
                t,
                w.sentences,
            )).len(),
            tag_of(t, DOC_SOURCE) + enc_opt_str(w.source),
        ),
{
    let u1 = tag_of(t, DOC_DESCRIPTION) + enc_opt_str(w.description);
    let u2 = tag_of(t, DOC_ID) + enc_u32(w.id);
    let u3 = tag_of(t, DOC_SENTENCES) + enc_sentence_list(t, w.sentences);
    let u4 = tag_of(t, DOC_SOURCE) + enc_opt_str(w.source);
    lemma_starts_with_concat(data, pos, u1 + u2 + u3, u4);
    lemma_starts_with_concat(data, pos, u1 + u2, u3);
    lemma_starts_with_concat(data, pos, u1, u2);
}

#[verifier::rlimit(100)]
#[verifier::spinoff_prover]
pub fn decode_document(t: bool, data: &[u8], pos: usize) -> (r: Result<
    (Document, usize),
    DecodeError,
>)
    ensures
        (match r {
            Ok((v, end)) => document_fits(v@) && end == pos + enc_document(t, v@).len()
                && starts_with(data@, pos as int, enc_document(t, v@)),
            Err(_) => true,
        }),
        forall|w: DocumentV|
            document_fits(w) && starts_with(data@, pos as int, enc_document(t, w)) ==> (r
                matches Ok(p) && p.0@ == w && p.1 == pos + enc_document(t, w).len()),
{
    let (description, p1) = match decode_tagged_opt_str(t, DOC_DESCRIPTION, data, pos) {
        Ok(p) => p,
        Err(e) => {
            proof {
                assert forall|w: DocumentV|
                    document_fits(w) && starts_with(
                        data@,
                        pos as int,
                        enc_document(t, w),
                    ) implies false by {
                    lemma_document_units(t, data@, pos as int, w);
                    assert(crate::model::opt_str_fits(w.description));
                    assert(crate::model::sentences_fit(w.sentences));
                    assert(crate::model::opt_str_fits(w.source));
                }
            }
            return Err(e);
        },
    };
    let (id, p2) = match decode_tagged_u32(t, DOC_ID, data, p1) {
        Ok(p) => p,
        Err(e) => {
            proof {
                assert forall|w: DocumentV|
                    document_fits(w) && starts_with(
                        data@,
                        pos as int,
                        enc_document(t, w),
                    ) implies false by {
                    lemma_document_units(t, data@, pos as int, w);
                    assert(crate::model::opt_str_fits(w.description));
                    assert(crate::model::sentences_fit(w.sentences));
                    assert(crate::model::opt_str_fits(w.source));
                }
            }
            return Err(e);
        },
    };
    let (sentences, p3) = match decode_tagged_sentence_list(t, DOC_SENTENCES, data, p2) {
        Ok(p) => p,
        Err(e) => {
            proof {
                assert forall|w: DocumentV|
                    document_fits(w) && starts_with(
                        data@,
                        pos as int,
                        enc_document(t, w),
                    ) implies false by {
                    lemma_document_units(t, data@, pos as int, w);
                    assert(crate::model::opt_str_fits(w.description));
                    assert(crate::model::sentences_fit(w.sentences));
                    assert(crate::model::opt_str_fits(w.source));
                }
            }
            return Err(e);
        },
    };
    let (source, p4) = match decode_tagged_opt_str(t, DOC_SOURCE, data, p3) {
        Ok(p) => p,
        Err(e) => {
            proof {
                assert forall|w: DocumentV|
                    document_fits(w) && starts_with(
                        data@,
                        pos as int,
                        enc_document(t, w),
                    ) implies false by {
                    lemma_document_units(t, data@, pos as int, w);
                    assert(crate::model::opt_str_fits(w.description));
                    assert(crate::model::sentences_fit(w.sentences));
                    assert(crate::model::opt_str_fits(w.source));
                }
            }
            return Err(e);
        },
    };
    let doc = Document { description, id, sentences, source };
    proof {
        let u1 = tag_of(t, DOC_DESCRIPTION) + enc_opt_str(doc@.description);
        let u2 = tag_of(t, DOC_ID) + enc_u32(doc@.id);
        let u3 = tag_of(t, DOC_SENTENCES) + enc_sentence_list(t, doc@.sentences);
        let u4 = tag_of(t, DOC_SOURCE) + enc_opt_str(doc@.source);
        lemma_starts_with_join(data@, pos as int, u1, u2);
        lemma_starts_with_join(data@, pos as int, u1 + u2, u3);
        lemma_starts_with_join(data@, pos as int, u1 + u2 + u3, u4);
        assert(starts_with(data@, pos as int, enc_document(t, doc@)));
        assert forall|w: DocumentV|
            document_fits(w) && starts_with(data@, pos as int, enc_document(t, w)) implies (doc@
            == w && pos + enc_document(t, w).len() == p4) by {
            lemma_document_units(t, data@, pos as int, w);
            assert(crate::model::opt_str_fits(w.description));
            assert(crate::model::sentences_fit(w.sentences));
            assert(crate::model::opt_str_fits(w.source));
            assert(doc@.description == w.description);
            assert(doc@.id == w.id);
            assert(doc@.sentences == w.sentences);
            assert(doc@.source == w.source);
            assert(doc@ =~= w);
        }
    }
    Ok((doc, p4))
}

#[verifier::rlimit(100)]
#[verifier::spinoff_prover]
fn decode_documents_from(t: bool, data: &[u8], pos: usize, n: u32) -> (r: Result<
    (Vec<Document>, usize),
    DecodeError,
>)
    requires
        pos <= data@.len(),
    ensures
        (match r {
            Ok((vs, end)) => vs@.len() == n && (forall|j: int|
                0 <= j < vs@.len() ==> document_fits(#[trigger] vs.deep_view()[j])) && end == pos
                + enc_documents(t, vs.deep_view()).len() && starts_with(
                data@,
                pos as int,
                enc_documents(t, vs.deep_view()),
            ),
            Err(_) => true,
        }),
        forall|ws: Seq<DocumentV>|
            ws.len() == n && (forall|j: int| 0 <= j < ws.len() ==> document_fits(#[trigger] ws[j]))
                && starts_with(data@, pos as int, enc_documents(t, ws)) ==> (r matches Ok(p)
                && p.0.deep_view() == ws && p.1 == pos + enc_documents(t, ws).len()),
    decreases n,
{
    if n == 0 {
        let vs: Vec<Document> = Vec::new();
        proof {
            assert(vs.deep_view() =~= Seq::<DocumentV>::empty());
            assert(data@.subrange(pos as int, pos as int) =~= Seq::<u8>::empty());
            assert forall|ws: Seq<DocumentV>|
                ws.len() == n && starts_with(data@, pos as int, enc_documents(t, ws)) implies vs.deep_view()
                == ws by {
                assert(ws =~= Seq::<DocumentV>::empty());
            }
        }
        return Ok((vs, pos));
    }
    let (doc, p1) = match decode_document(t, data, pos) {
        Ok(p) => p,
        Err(e) => {
            proof {
                assert forall|ws: Seq<DocumentV>|
                    ws.len() == n && (forall|j: int|
                        0 <= j < ws.len() ==> document_fits(#[trigger] ws[j])) && starts_with(
                        data@,
                        pos as int,
                        enc_documents(t, ws),
                    ) implies false by {
                    lemma_starts_with_concat(
                        data@,
                        pos as int,
                        enc_document(t, ws[0]),
                        enc_documents(t, ws.drop_first()),
                    );
                }
            }
            return Err(e);
        },
    };
    let (mut rest, end) = match decode_documents_from(t, data, p1, n - 1) {
        Ok(p) => p,
        Err(e) => {
            proof {
                assert forall|ws: Seq<DocumentV>|
                    ws.len() == n && (forall|j: int|
                        0 <= j < ws.len() ==> document_fits(#[trigger] ws[j])) && starts_with(
                        data@,
                        pos as int,
                        enc_documents(t, ws),
                    ) implies false by {
                    lemma_starts_with_concat(
                        data@,
                        pos as int,
                        enc_document(t, ws[0]),
                        enc_documents(t, ws.drop_first()),
                    );
                    assert(ws.drop_first().len() == n - 1);
                }
            }
            return Err(e);
        },
    };
    let ghost rest0 = rest.deep_view();
    rest.insert(0, doc);
    proof {
        let dv = rest.deep_view();
        assert(dv =~= seq![doc@] + rest0);
        assert(dv[0] == doc@);
        assert(dv.drop_first() =~= rest0);
        lemma_starts_with_join(data@, pos as int, enc_document(t, doc@), enc_documents(t, rest0));
        assert(enc_documents(t, dv) == enc_document(t, doc@) + enc_documents(t, rest0));
        assert forall|ws: Seq<DocumentV>|
            ws.len() == n && (forall|j: int| 0 <= j < ws.len() ==> document_fits(#[trigger] ws[j]))
                && starts_with(data@, pos as int, enc_documents(t, ws)) implies (dv == ws && pos
            + enc_documents(t, ws).len() == end) by {
            lemma_starts_with_concat(
                data@,
                pos as int,
                enc_document(t, ws[0]),
                enc_documents(t, ws.drop_first()),
            );
            assert(ws.drop_first().len() == n - 1);
            assert forall|j: int| 0 <= j < ws.drop_first().len() implies document_fits(
                #[trigger] ws.drop_first()[j],
            ) by {
                assert(ws.drop_first()[j] == ws[j + 1]);
            }
            assert(rest0 == ws.drop_first());
            assert(dv =~= ws);
        }
    }
    Ok((rest, end))
}

#[verifier::rlimit(100)]
pub fn decode_document_list(t: bool, data: &[u8], pos: usize) -> (r: Result<
    (Vec<Document>, usize),
    DecodeError,
>)
    ensures
        (match r {
            Ok((vs, end)) => crate::model::documents_fit(vs.deep_view()) && end == pos
                + enc_document_list(t, vs.deep_view()).len() && starts_with(
                data@,
                pos as int,
                enc_document_list(t, vs.deep_view()),
            ),
            Err(_) => true,
        }),
        forall|ws: Seq<DocumentV>|
            crate::model::documents_fit(ws) && starts_with(
                data@,
                pos as int,
                enc_document_list(t, ws),
            ) ==> (r matches Ok(p) && p.0.deep_view() == ws && p.1 == pos + enc_document_list(
                t,
                ws,
            ).len()),
{
    let (n, p1) = match decode_u32(data, pos) {
        Ok(p) => p,
        Err(e) => {
            proof {
                assert forall|ws: Seq<DocumentV>|
                    crate::model::documents_fit(ws) && starts_with(
                        data@,
                        pos as int,
                        enc_document_list(t, ws),
                    ) implies false by {
                    lemma_starts_with_concat(
                        data@,
                        pos as int,
                        enc_u32(ws.len() as u32),
                        enc_documents(t, ws),
                    );
                }
            }
            return Err(e);
        },
    };
    match decode_documents_from(t, data, p1, n) {
        Ok((vs, end)) => {
            proof {
                lemma_starts_with_join(
                    data@,
                    pos as int,
                    enc_u32(n),
                    enc_documents(t, vs.deep_view()),
                );
                assert(vs.deep_view().len() as u32 == n);
                assert(enc_document_list(t, vs.deep_view()) == enc_u32(n) + enc_documents(
                    t,
                    vs.deep_view(),
                ));
                assert forall|ws: Seq<DocumentV>|
                    crate::model::documents_fit(ws) && starts_with(
                        data@,
                        pos as int,
                        enc_document_list(t, ws),
                    ) implies (vs.deep_view() == ws && pos + enc_document_list(t, ws).len()
                    == end) by {
                    lemma_starts_with_concat(
                        data@,
                        pos as int,
                        enc_u32(ws.len() as u32),
                        enc_documents(t, ws),
                    );
                    assert(ws.len() == n);
                }
            }
            Ok((vs, end))
        },
        Err(e) => {
            proof {
                assert forall|ws: Seq<DocumentV>|
                    crate::model::documents_fit(ws) && starts_with(
                        data@,
                        pos as int,
                        enc_document_list(t, ws),
                    ) implies false by {
                    lemma_starts_with_concat(
                        data@,
                        pos as int,
                        enc_u32(ws.len() as u32),
                        enc_documents(t, ws),
                    );
                    assert(ws.len() == n);
                }
            }
            Err(e)
        },
    }
}

/// Splits an occurrence of a corpus's encoding into its two field units.
proof fn lemma_corpus_units(t: bool, data: Seq<u8>, pos: int, w: CorpusV)
    requires
        starts_with(data, pos, enc_corpus(t, w)),
    ensures
        starts_with(data, pos, tag_of(t, COR_METADATA) + enc_opt_metadata(t, w.metadata)),
        starts_with(
            data,
            pos + (tag_of(t, COR_METADATA) + enc_opt_metadata(t, w.metadata)).len(),
            tag_of(t, COR_DOCUMENTS) + enc_document_list(t, w.documents),
        ),
{
    let u1 = tag_of(t, COR_METADATA) + enc_opt_metadata(t, w.metadata);
    let u2 = tag_of(t, COR_DOCUMENTS) + enc_document_list(t, w.documents);
    lemma_starts_with_concat(data, pos, u1, u2);
}

#[verifier::rlimit(100)]
#[verifier::spinoff_prover]
pub fn decode_corpus_body(t: bool, data: &[u8], pos: usize) -> (r: Result<
    (Corpus, usize),
    DecodeError,
>)
    ensures
        (match r {
            Ok((v, end)) => corpus_fits(v@) && end == pos + enc_corpus(t, v@).len() && starts_with(
                data@,
                pos as int,
                enc_corpus(t, v@),
            ),
            Err(_) => true,
        }),
        forall|w: CorpusV|
            corpus_fits(w) && starts_with(data@, pos as int, enc_corpus(t, w)) ==> (r matches Ok(p)
                && p.0@ == w && p.1 == pos + enc_corpus(t, w).len()),
{
    let p0 = match expect_tag(t, COR_METADATA, data, pos) {
        Ok(p) => p,
        Err(e) => {
            proof {
                assert forall|w: CorpusV|
                    corpus_fits(w) && starts_with(data@, pos as int, enc_corpus(t, w)) implies false by {
                    lemma_corpus_units(t, data@, pos as int, w);
                    lemma_starts_with_concat(
                        data@,
                        pos as int,
                        tag_of(t, COR_METADATA),
                        enc_opt_metadata(t, w.metadata),
                    );
                }
            }
            return Err(e);
        },
    };
    let (metadata, p1) = match decode_opt_metadata(t, data, p0) {
        Ok(p) => p,
        Err(e) => {
            proof {
                assert forall|w: CorpusV|
                    corpus_fits(w) && starts_with(data@, pos as int, enc_corpus(t, w)) implies false by {
                    lemma_corpus_units(t, data@, pos as int, w);
                    lemma_starts_with_concat(
                        data@,
                        pos as int,
                        tag_of(t, COR_METADATA),
                        enc_opt_metadata(t, w.metadata),
                    );
                }
            }
            return Err(e);
        },
    };
    let (documents, p2) = match decode_tagged_document_list(t, COR_DOCUMENTS, data, p1) {
        Ok(p) => p,
        Err(e) => {
            proof {
                assert forall|w: CorpusV|
                    corpus_fits(w) && starts_with(data@, pos as int, enc_corpus(t, w)) implies false by {
                    lemma_corpus_units(t, data@, pos as int, w);
                    lemma_starts_with_concat(
                        data@,
                        pos as int,
                        tag_of(t, COR_METADATA),
                        enc_opt_metadata(t, w.metadata),
                    );
                }
            }
            return Err(e);
        },
    };
    let cor = Corpus { metadata, documents };
    proof {
        assert(opt_metadata_view(cor.metadata) == cor@.metadata);
        lemma_starts_with_join(
            data@,
            pos as int,
            tag_of(t, COR_METADATA),
            enc_opt_metadata(t, cor@.metadata),
        );
        lemma_starts_with_join(
            data@,
            pos as int,
            tag_of(t, COR_METADATA) + enc_opt_metadata(t, cor@.metadata),
            tag_of(t, COR_DOCUMENTS) + enc_document_list(t, cor@.documents),
        );
        assert(starts_with(data@, pos as int, enc_corpus(t, cor@)));
        assert forall|w: CorpusV|
            corpus_fits(w) && starts_with(data@, pos as int, enc_corpus(t, w)) implies (cor@ == w
            && pos + enc_corpus(t, w).len() == p2) by {
            lemma_corpus_units(t, data@, pos as int, w);
            lemma_starts_with_concat(
                data@,
                pos as int,
                tag_of(t, COR_METADATA),
                enc_opt_metadata(t, w.metadata),
            );
            assert(cor@ =~= w);
        }
    }
    Ok((cor, p2))
}

fn decode_tagged_document_list(t: bool, tag: u8, data: &[u8], pos: usize) -> (r: Result<
    (Vec<Document>, usize),
    DecodeError,
>)
    ensures
        (match r {
            Ok((vs, end)) => crate::model::documents_fit(vs.deep_view()) && end == pos + (tag_of(
                t,
                tag,
            ) + enc_document_list(t, vs.deep_view())).len() && starts_with(
                data@,
                pos as int,
                tag_of(t, tag) + enc_document_list(t, vs.deep_view()),
            ),
            Err(_) => true,
        }),
        forall|ws: Seq<DocumentV>|
            crate::model::documents_fit(ws) && starts_with(
                data@,
                pos as int,
                tag_of(t, tag) + enc_document_list(t, ws),
            ) ==> (r matches Ok(p) && p.0.deep_view() == ws && p.1 == pos + (tag_of(t, tag)
                + enc_document_list(t, ws)).len()),
{
    let p0 = match expect_tag(t, tag, data, pos) {
        Ok(p) => p,
        Err(e) => {
            proof {
                assert forall|ws: Seq<DocumentV>|
                    crate::model::documents_fit(ws) && starts_with(
                        data@,
                        pos as int,
                        tag_of(t, tag) + enc_document_list(t, ws),
                    ) implies false by {
                    lemma_starts_with_concat(
                        data@,
                        pos as int,
                        tag_of(t, tag),
                        enc_document_list(t, ws),
                    );
                }
            }
            return Err(e);
        },
    };
    match decode_document_list(t, data, p0) {
        Ok((vs, end)) => {
            proof {
                lemma_starts_with_join(
                    data@,
                    pos as int,
                    tag_of(t, tag),
                    enc_document_list(t, vs.deep_view()),
                );
                assert forall|ws: Seq<DocumentV>|
                    crate::model::documents_fit(ws) && starts_with(
                        data@,
                        pos as int,
                        tag_of(t, tag) + enc_document_list(t, ws),
                    ) implies vs.deep_view() == ws by {
                    lemma_starts_with_concat(
                        data@,
                        pos as int,
                        tag_of(t, tag),
                        enc_document_list(t, ws),
                    );
                }
            }
            Ok((vs, end))
        },
        Err(e) => {
            proof {
                assert forall|ws: Seq<DocumentV>|
                    crate::model::documents_fit(ws) && starts_with(
                        data@,
                        pos as int,
                        tag_of(t, tag) + enc_document_list(t, ws),
                    ) implies false by {
                    lemma_starts_with_concat(
                        data@,
                        pos as int,
                        tag_of(t, tag),
                        enc_document_list(t, ws),
                    );
                }
            }
            Err(e)
        },
    }
}

/// Splits an occurrence of a translation's encoding into its four units.
proof fn lemma_translation_units(t: bool, data: Seq<u8>, pos: int, w: TranslationV)
    requires
        starts_with(data, pos, enc_translation(t, w)),
    ensures
        starts_with(data, pos, tag_of(t, TRA_ID) + enc_u32(w.id)),
        starts_with(
            data,
            pos + (tag_of(t, TRA_ID) + enc_u32(w.id)).len(),
            tag_of(t, TRA_LANG) + enc_str(w.lang),
        ),
        starts_with(
            data,
            pos + (tag_of(t, TRA_ID) + enc_u32(w.id)).len() + (tag_of(t, TRA_LANG) + enc_str(
                w.lang,
            )).len(),
            tag_of(t, TRA_TYPE) + enc_sentence_type(w.sentence_type),
        ),
        starts_with(
            data,
            pos + (tag_of(t, TRA_ID) + enc_u32(w.id)).len() + (tag_of(t, TRA_LANG) + enc_str(
                w.lang,
            )).len() + (tag_of(t, TRA_TYPE) + enc_sentence_type(w.sentence_type)).len(),
            tag_of(t, TRA_TOKENS) + enc_token_list(t, w.tokens),
        ),
{
    let u1 = tag_of(t, TRA_ID) + enc_u32(w.id);
    let u2 = tag_of(t, TRA_LANG) + enc_str(w.lang);
    let u3 = tag_of(t, TRA_TYPE) + enc_sentence_type(w.sentence_type);
    let u4 = tag_of(t, TRA_TOKENS) + enc_token_list(t, w.tokens);
    lemma_starts_with_concat(data, pos, u1 + u2 + u3, u4);
    lemma_starts_with_concat(data, pos, u1 + u2, u3);
    lemma_starts_with_concat(data, pos, u1, u2);
}

#[verifier::rlimit(100)]
#[verifier::spinoff_prover]
pub fn decode_translation_body(t: bool, data: &[u8], pos: usize) -> (r: Result<
    (Translation, usize),
    DecodeError,
>)
    ensures
        (match r {
            Ok((v, end)) => translation_fits(v@) && end == pos + enc_translation(t, v@).len()
                && starts_with(data@, pos as int, enc_translation(t, v@)),
            Err(_) => true,
        }),
        forall|w: TranslationV|
            translation_fits(w) && starts_with(data@, pos as int, enc_translation(t, w)) ==> (r
                matches Ok(p) && p.0@ == w && p.1 == pos + enc_translation(t, w).len()),
{
    let (id, p1) = match decode_tagged_u32(t, TRA_ID, data, pos) {
        Ok(p) => p,
        Err(e) => {
            proof {
                assert forall|w: TranslationV|
                    translation_fits(w) && starts_with(
                        data@,
                        pos as int,
                        enc_translation(t, w),
                    ) implies false by {
                    lemma_translation_units(t, data@, pos as int, w);
                }
            }
            return Err(e);
        },
    };
    let (lang, p2) = match decode_tagged_str(t, TRA_LANG, data, p1) {
        Ok(p) => p,
        Err(e) => {
            proof {
                assert forall|w: TranslationV|
                    translation_fits(w) && starts_with(
                        data@,
                        pos as int,
                        enc_translation(t, w),
                    ) implies false by {
                    lemma_translation_units(t, data@, pos as int, w);
                }
            }
            return Err(e);
        },
    };
    let (sentence_type, p3) = match decode_tagged_sentence_type(t, TRA_TYPE, data, p2) {
        Ok(p) => p,
        Err(e) => {
            proof {
                assert forall|w: TranslationV|
                    translation_fits(w) && starts_with(
                        data@,
                        pos as int,
                        enc_translation(t, w),
                    ) implies false by {
                    lemma_translation_units(t, data@, pos as int, w);
                }
            }
            return Err(e);
        },
    };
    let (tokens, p4) = match decode_tagged_token_list(t, TRA_TOKENS, data, p3) {
        Ok(p) => p,
        Err(e) => {
            proof {
                assert forall|w: TranslationV|
                    translation_fits(w) && starts_with(
                        data@,
                        pos as int,
                        enc_translation(t, w),
                    ) implies false by {
                    lemma_translation_units(t, data@, pos as int, w);
                }
            }
            return Err(e);
        },
    };
    let tra = Translation { id, lang, sentence_type, tokens };
    proof {
        let u1 = tag_of(t, TRA_ID) + enc_u32(tra@.id);
        let u2 = tag_of(t, TRA_LANG) + enc_str(tra@.lang);
        let u3 = tag_of(t, TRA_TYPE) + enc_sentence_type(tra@.sentence_type);
        let u4 = tag_of(t, TRA_TOKENS) + enc_token_list(t, tra@.tokens);
        lemma_starts_with_join(data@, pos as int, u1, u2);
        lemma_starts_with_join(data@, pos as int, u1 + u2, u3);
        lemma_starts_with_join(data@, pos as int, u1 + u2 + u3, u4);
        assert(starts_with(data@, pos as int, enc_translation(t, tra@)));
        assert forall|w: TranslationV|
            translation_fits(w) && starts_with(
                data@,
                pos as int,
                enc_translation(t, w),
            ) implies (tra@ == w && pos + enc_translation(t, w).len() == p4) by {
            lemma_translation_units(t, data@, pos as int, w);
            assert(tra@ =~= w);
        }
    }
    Ok((tra, p4))
}

} // verus!
