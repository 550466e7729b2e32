//! Exec encoders: each appends exactly the spec encoding of its argument to
//! the output buffer, or reports `TooLong` when (and only when) some string
//! or sequence in the value overflows a 32-bit length prefix.

use crate::enc::{
    enc_author, enc_author_list, enc_authors, enc_corpus, enc_document, enc_document_list,
    enc_documents, enc_metadata, enc_sentence, enc_sentence_list, enc_sentence_type,
    enc_sentences, enc_token, enc_token_back, enc_token_front, enc_token_list, enc_tokens,
    enc_translation, AUT_FIRST_NAME,
    AUT_LAST_NAME, AUT_MAIL, COR_DOCUMENTS, COR_METADATA, DOC_DESCRIPTION, DOC_ID, DOC_SENTENCES,
    DOC_SOURCE, MET_AUTHORS, MET_CREATED, MET_DESCRIPTION, MET_MODIFIED, MET_NAME, MET_VERSION,
    SEN_ID, SEN_LANG, SEN_TOKENS, SEN_TRANSLATIONS, TOK_DEPREL, TOK_DEPS, TOK_FEATS, TOK_FORM,
    TOK_HEAD, TOK_ID, TOK_LEMMA, TOK_MISC, TOK_UPOS, TOK_XPOS, TRA_ID, TRA_LANG, TRA_TOKENS,
    TRA_TYPE,
};
use crate::error::EncodeError;
use crate::model::{
    author_fits, authors_fit, corpus_fits, document_fits, documents_fit, metadata_fits,
    sentence_fits, sentences_fit, token_fits, tokens_fit, translation_fits, LEN_LIMIT,
};
use crate::schema::{
    Author, Corpus, Document, Metadata, Sentence, SentenceType, Token, Translation,
};
use crate::wire::{
    enc_opt_str, enc_str, enc_u32, encode_i64, encode_opt_i64, encode_opt_str, encode_str, encode_tag,
    encode_u16, encode_u32, encode_u8, tag_of,
};
use vstd::prelude::*;

verus! {

broadcast use {
    vstd::std_specs::vec::axiom_vec_index_decreases,
    vstd::seq::axiom_seq_index_decreases,
};

#[verifier::rlimit(100)]
fn encode_token_front(t: bool, v: &Token, out: &mut Vec<u8>) -> (r: Result<(), EncodeError>)
    ensures
        (match r {
            Ok(_) => crate::model::str_fits(v.form@) && crate::model::opt_str_fits(
                v.lemma.deep_view(),
            ) && crate::model::opt_str_fits(v.upos.deep_view()) && crate::model::opt_str_fits(
                v.xpos.deep_view(),
            ) && final(out)@ == old(out)@ + enc_token_front(
                t,
                v.id,
                v.form@,
                v.lemma.deep_view(),
                v.upos.deep_view(),
                v.xpos.deep_view(),
            ),
            Err(e) => !token_fits(v@) && e == EncodeError::TooLong,
        }),
{
    encode_tag(t, TOK_ID, out);
    encode_u32(v.id, out);
    encode_tag(t, TOK_FORM, out);
    match encode_str(v.form.as_str(), out) {
        Ok(_) => (),
        Err(e) => return Err(e),
    }
    encode_tag(t, TOK_LEMMA, out);
    match encode_opt_str(&v.lemma, out) {
        Ok(_) => (),
        Err(e) => return Err(e),
    }
    encode_tag(t, TOK_UPOS, out);
    match encode_opt_str(&v.upos, out) {
        Ok(_) => (),
        Err(e) => return Err(e),
    }
    encode_tag(t, TOK_XPOS, out);
    match encode_opt_str(&v.xpos, out) {
        Ok(_) => (),
        Err(e) => return Err(e),
    }
    proof {
        assert(out@ =~= old(out)@ + enc_token_front(
            t,
            v.id,
            v.form@,
            v.lemma.deep_view(),
            v.upos.deep_view(),
            v.xpos.deep_view(),
        ));
    }
    Ok(())
}

#[verifier::rlimit(100)]
#[verifier::spinoff_prover]
fn encode_token_back(t: bool, v: &Token, out: &mut Vec<u8>) -> (r: Result<(), EncodeError>)
    ensures
        (match r {
            Ok(_) => crate::model::opt_str_fits(v.feats.deep_view())
                && crate::model::opt_str_fits(v.head.deep_view()) && crate::model::opt_str_fits(
                v.deprel.deep_view(),
            ) && crate::model::opt_str_fits(v.deps.deep_view()) && crate::model::opt_str_fits(
                v.misc.deep_view(),
            ) && final(out)@ == old(out)@ + enc_token_back(
                t,
                v.feats.deep_view(),
                v.head.deep_view(),
                v.deprel.deep_view(),
                v.deps.deep_view(),
                v.misc.deep_view(),
            ),
            Err(e) => !token_fits(v@) && e == EncodeError::TooLong,
        }),
{
    encode_tag(t, TOK_FEATS, out);
    match encode_opt_str(&v.feats, out) {
        Ok(_) => (),
        Err(e) => return Err(e),
    }
    encode_tag(t, TOK_HEAD, out);
    match encode_opt_str(&v.head, out) {
        Ok(_) => (),
        Err(e) => return Err(e),
    }
    encode_tag(t, TOK_DEPREL, out);
    match encode_opt_str(&v.deprel, out) {
        Ok(_) => (),
        Err(e) => return Err(e),
    }
    encode_tag(t, TOK_DEPS, out);
    match encode_opt_str(&v.deps, out) {
        Ok(_) => (),
        Err(e) => return Err(e),
    }
    let ghost mid = out@;
    proof {
        assert(mid =~= old(out)@ + ((tag_of(t, TOK_FEATS) + enc_opt_str(v.feats.deep_view())) + (
        tag_of(t, TOK_HEAD) + enc_opt_str(v.head.deep_view())) + (tag_of(t, TOK_DEPREL)
            + enc_opt_str(v.deprel.deep_view())) + (tag_of(t, TOK_DEPS) + enc_opt_str(
            v.deps.deep_view(),
        ))));
    }
    encode_tag(t, TOK_MISC, out);
    match encode_opt_str(&v.misc, out) {
        Ok(_) => (),
        Err(e) => return Err(e),
    }
    proof {
        assert(out@ =~= old(out)@ + enc_token_back(
            t,
            v.feats.deep_view(),
            v.head.deep_view(),
            v.deprel.deep_view(),
            v.deps.deep_view(),
            v.misc.deep_view(),
        ));
    }
    Ok(())
}

pub fn encode_token(t: bool, v: &Token, out: &mut Vec<u8>) -> (r: Result<(), EncodeError>)
    ensures
        (match r {
            Ok(_) => token_fits(v@) && final(out)@ == old(out)@ + enc_token(t, v@),
            Err(e) => !token_fits(v@) && e == EncodeError::TooLong,
        }),
{
    match encode_token_front(t, v, out) {
        Ok(_) => (),
        Err(e) => return Err(e),
    }
    match encode_token_back(t, v, out) {
        Ok(_) => (),
        Err(e) => return Err(e),
    }
    proof {
        assert(out@ =~= old(out)@ + enc_token(t, v@));
    }
    Ok(())
}

fn encode_tokens_from(t: bool, vs: &Vec<Token>, i: usize, out: &mut Vec<u8>) -> (r: Result<
    (),
    EncodeError,
>)
    requires
        i <= vs@.len(),
    ensures
        (match r {
            Ok(_) => (forall|j: int|
                i <= j < vs@.len() ==> token_fits(#[trigger] vs.deep_view()[j])) && final(out)@
                == old(out)@ + enc_tokens(t, vs.deep_view().skip(i as int)),
            Err(e) => !tokens_fit(vs.deep_view()) && e == EncodeError::TooLong,
        }),
    decreases vs@.len() - i,
{
    if i == vs.len() {
        proof {
            assert(out@ =~= old(out)@ + enc_tokens(t, vs.deep_view().skip(i as int)));
        }
        return Ok(());
    }
    match encode_token(t, &vs[i], out) {
        Ok(_) => (),
        Err(e) => {
            proof {
                assert(!token_fits(vs.deep_view()[i as int]));
            }
            return Err(e);
        },
    }
    match encode_tokens_from(t, vs, i + 1, out) {
        Ok(_) => (),
        Err(e) => return Err(e),
    }
    proof {
        let dv = vs.deep_view();
        assert(dv.skip(i as int).drop_first() =~= dv.skip(i + 1));
        assert(dv.skip(i as int)[0] == dv[i as int]);
        assert(out@ =~= old(out)@ + enc_tokens(t, dv.skip(i as int)));
    }
    Ok(())
}

pub fn encode_token_list(t: bool, vs: &Vec<Token>, out: &mut Vec<u8>) -> (r: Result<
    (),
    EncodeError,
>)
    ensures
        (match r {
            Ok(_) => tokens_fit(vs.deep_view()) && final(out)@ == old(out)@ + enc_token_list(
                t,
                vs.deep_view(),
            ),
            Err(e) => !tokens_fit(vs.deep_view()) && e == EncodeError::TooLong,
        }),
{
    if vs.len() as u64 > LEN_LIMIT {
        return Err(EncodeError::TooLong);
    }
    encode_u32(#[verifier::truncate] (vs.len() as u32), out);
    match encode_tokens_from(t, vs, 0, out) {
        Ok(_) => (),
        Err(e) => return Err(e),
    }
    proof {
        assert(vs.deep_view().skip(0) =~= vs.deep_view());
        assert(out@ =~= old(out)@ + enc_token_list(t, vs.deep_view()));
    }
    Ok(())
}

#[verifier::rlimit(100)]
pub fn encode_sentence(t: bool, v: &Sentence, out: &mut Vec<u8>) -> (r: Result<(), EncodeError>)
    ensures
        (match r {
            Ok(_) => sentence_fits(v@) && final(out)@ == old(out)@ + enc_sentence(t, v@),
            Err(e) => !sentence_fits(v@) && e == EncodeError::TooLong,
        }),
    decreases v, 2int, 0int,
{
    proof {
        assert(v.translations.deep_view() =~= v@.translations);
    }
    encode_tag(t, SEN_ID, out);
    encode_u32(v.id, out);
    encode_tag(t, SEN_LANG, out);
    match encode_str(v.lang.as_str(), out) {
        Ok(_) => (),
        Err(e) => return Err(e),
    }
    encode_tag(t, SEN_TOKENS, out);
    match encode_token_list(t, &v.tokens, out) {
        Ok(_) => (),
        Err(e) => return Err(e),
    }
    encode_tag(t, SEN_TRANSLATIONS, out);
    match encode_sentence_list(t, &v.translations, out) {
        Ok(_) => (),
        Err(e) => return Err(e),
    }
    proof {
        assert(v.translations.deep_view() =~= v@.translations);
        let p = tag_of(t, SEN_ID) + enc_u32(v.id) + tag_of(t, SEN_LANG) + enc_str(v.lang@)
            + tag_of(t, SEN_TOKENS) + enc_token_list(t, v.tokens.deep_view()) + tag_of(
            t,
            SEN_TRANSLATIONS,
        ) + enc_sentence_list(t, v.translations.deep_view());
        assert(out@ =~= old(out)@ + p);
        assert(p =~= enc_sentence(t, v@));
    }
    Ok(())
}

fn encode_sentences_from(t: bool, vs: &Vec<Sentence>, i: usize, out: &mut Vec<u8>) -> (r: Result<
    (),
    EncodeError,
>)
    requires
        i <= vs@.len(),
    ensures
        (match r {
            Ok(_) => (forall|j: int|
                i <= j < vs@.len() ==> sentence_fits(#[trigger] vs.deep_view()[j])) && final(out)@
                == old(out)@ + enc_sentences(t, vs.deep_view().skip(i as int)),
            Err(e) => !sentences_fit(vs.deep_view()) && e == EncodeError::TooLong,
        }),
    decreases vs, 0int, vs@.len() - i,
{
    if i == vs.len() {
        proof {
            assert(out@ =~= old(out)@ + enc_sentences(t, vs.deep_view().skip(i as int)));
        }
        return Ok(());
    }
    match encode_sentence(t, &vs[i], out) {
        Ok(_) => (),
        Err(e) => {
            proof {
                assert(!sentence_fits(vs.deep_view()[i as int]));
            }
            return Err(e);
        },
    }
    match encode_sentences_from(t, vs, i + 1, out) {
        Ok(_) => (),
        Err(e) => return Err(e),
    }
    proof {
        let dv = vs.deep_view();
        assert(dv.skip(i as int).drop_first() =~= dv.skip(i + 1));
        assert(dv.skip(i as int)[0] == dv[i as int]);
        assert(out@ =~= old(out)@ + enc_sentences(t, dv.skip(i as int)));
    }
    Ok(())
}

pub fn encode_sentence_list(t: bool, vs: &Vec<Sentence>, out: &mut Vec<u8>) -> (r: Result<
    (),
    EncodeError,
>)
    ensures
        (match r {
            Ok(_) => sentences_fit(vs.deep_view()) && final(out)@ == old(out)@ + enc_sentence_list(
                t,
                vs.deep_view(),
            ),
            Err(e) => !sentences_fit(vs.deep_view()) && e == EncodeError::TooLong,
        }),
    decreases vs, 1int, 0int,
{
    if vs.len() as u64 > LEN_LIMIT {
        return Err(EncodeError::TooLong);
    }
    encode_u32(#[verifier::truncate] (vs.len() as u32), out);
    match encode_sentences_from(t, vs, 0, out) {
        Ok(_) => (),
        Err(e) => return Err(e),
    }
    proof {
        assert(vs.deep_view().skip(0) =~= vs.deep_view());
        assert(out@ =~= old(out)@ + enc_sentence_list(t, vs.deep_view()));
    }
    Ok(())
}

pub fn encode_author(t: bool, v: &Author, out: &mut Vec<u8>) -> (r: Result<(), EncodeError>)
    ensures
        (match r {
            Ok(_) => author_fits(v@) && final(out)@ == old(out)@ + enc_author(t, v@),
            Err(e) => !author_fits(v@) && e == EncodeError::TooLong,
        }),
{
    encode_tag(t, AUT_FIRST_NAME, out);
    match encode_str(v.first_name.as_str(), out) {
        Ok(_) => (),
        Err(e) => return Err(e),
    }
    encode_tag(t, AUT_LAST_NAME, out);
    match encode_str(v.last_name.as_str(), out) {
        Ok(_) => (),
        Err(e) => return Err(e),
    }
    encode_tag(t, AUT_MAIL, out);
    match encode_opt_str(&v.mail, out) {
        Ok(_) => (),
        Err(e) => return Err(e),
    }
    proof {
        assert(out@ =~= old(out)@ + enc_author(t, v@));
    }
    Ok(())
}

fn encode_authors_from(t: bool, vs: &Vec<Author>, i: usize, out: &mut Vec<u8>) -> (r: Result<
    (),
    EncodeError,
>)
    requires
        i <= vs@.len(),
    ensures
        (match r {
            Ok(_) => (forall|j: int|
                i <= j < vs@.len() ==> author_fits(#[trigger] vs.deep_view()[j])) && final(out)@
                == old(out)@ + enc_authors(t, vs.deep_view().skip(i as int)),
            Err(e) => !authors_fit(vs.deep_view()) && e == EncodeError::TooLong,
        }),
    decreases vs@.len() - i,
{
    if i == vs.len() {
        proof {
            assert(out@ =~= old(out)@ + enc_authors(t, vs.deep_view().skip(i as int)));
        }
        return Ok(());
    }
    match encode_author(t, &vs[i], out) {
        Ok(_) => (),
        Err(e) => {
            proof {
                assert(!author_fits(vs.deep_view()[i as int]));
            }
            return Err(e);
        },
    }
    match encode_authors_from(t, vs, i + 1, out) {
        Ok(_) => (),
        Err(e) => return Err(e),
    }
    proof {
        let dv = vs.deep_view();
        assert(dv.skip(i as int).drop_first() =~= dv.skip(i + 1));
        assert(dv.skip(i as int)[0] == dv[i as int]);
        assert(out@ =~= old(out)@ + enc_authors(t, dv.skip(i as int)));
    }
    Ok(())
}

pub fn encode_author_list(t: bool, vs: &Vec<Author>, out: &mut Vec<u8>) -> (r: Result<
    (),
    EncodeError,
>)
    ensures
        (match r {
            Ok(_) => authors_fit(vs.deep_view()) && final(out)@ == old(out)@ + enc_author_list(
                t,
                vs.deep_view(),
            ),
            Err(e) => !authors_fit(vs.deep_view()) && e == EncodeError::TooLong,
        }),
{
    if vs.len() as u64 > LEN_LIMIT {
        return Err(EncodeError::TooLong);
    }
    encode_u32(#[verifier::truncate] (vs.len() as u32), out);
    match encode_authors_from(t, vs, 0, out) {
        Ok(_) => (),
        Err(e) => return Err(e),
    }
    proof {
        assert(vs.deep_view().skip(0) =~= vs.deep_view());
        assert(out@ =~= old(out)@ + enc_author_list(t, vs.deep_view()));
    }
    Ok(())
}

#[verifier::rlimit(100)]
pub fn encode_metadata(t: bool, v: &Metadata, out: &mut Vec<u8>) -> (r: Result<(), EncodeError>)
    ensures
        (match r {
            Ok(_) => metadata_fits(v@) && final(out)@ == old(out)@ + enc_metadata(t, v@),
            Err(e) => !metadata_fits(v@) && e == EncodeError::TooLong,
        }),
{
    encode_tag(t, MET_AUTHORS, out);
    match encode_author_list(t, &v.authors, out) {
        Ok(_) => (),
        Err(e) => return Err(e),
    }
    encode_tag(t, MET_CREATED, out);
    encode_opt_i64(&v.created, out);
    encode_tag(t, MET_DESCRIPTION, out);
    match encode_opt_str(&v.description, out) {
        Ok(_) => (),
        Err(e) => return Err(e),
    }
    encode_tag(t, MET_MODIFIED, out);
    encode_opt_i64(&v.modified, out);
    encode_tag(t, MET_NAME, out);
    match encode_str(v.name.as_str(), out) {
        Ok(_) => (),
        Err(e) => return Err(e),
    }
    encode_tag(t, MET_VERSION, out);
    encode_u16(v.version, out);
    proof {
        assert(out@ =~= old(out)@ + enc_metadata(t, v@));
    }
    Ok(())
}

#[verifier::rlimit(100)]
pub fn encode_document(t: bool, v: &Document, out: &mut Vec<u8>) -> (r: Result<(), EncodeError>)
    ensures
        (match r {
            Ok(_) => document_fits(v@) && final(out)@ == old(out)@ + enc_document(t, v@),
            Err(e) => !document_fits(v@) && e == EncodeError::TooLong,
        }),
{
    encode_tag(t, DOC_DESCRIPTION, out);
    match encode_opt_str(&v.description, out) {
        Ok(_) => (),
        Err(e) => return Err(e),
    }
    encode_tag(t, DOC_ID, out);
    encode_u32(v.id, out);
    encode_tag(t, DOC_SENTENCES, out);
    match encode_sentence_list(t, &v.sentences, out) {
        Ok(_) => (),
        Err(e) => return Err(e),
    }
    encode_tag(t, DOC_SOURCE, out);
    match encode_opt_str(&v.source, out) {
        Ok(_) => (),
        Err(e) => return Err(e),
    }
    proof {
        assert(out@ =~= old(out)@ + enc_document(t, v@));
    }
    Ok(())
}

#[verifier::rlimit(100)]
fn encode_documents_from(t: bool, vs: &Vec<Document>, i: usize, out: &mut Vec<u8>) -> (r: Result<
    (),
    EncodeError,
>)
    requires
        i <= vs@.len(),
    ensures
        (match r {
            Ok(_) => (forall|j: int|
                i <= j < vs@.len() ==> document_fits(#[trigger] vs.deep_view()[j])) && final(out)@
                == old(out)@ + enc_documents(t, vs.deep_view().skip(i as int)),
            Err(e) => !documents_fit(vs.deep_view()) && e == EncodeError::TooLong,
        }),
    decreases vs@.len() - i,
{
    if i == vs.len() {
        proof {
            assert(out@ =~= old(out)@ + enc_documents(t, vs.deep_view().skip(i as int)));
        }
        return Ok(());
    }
    match encode_document(t, &vs[i], out) {
        Ok(_) => (),
        Err(e) => {
            proof {
                assert(!document_fits(vs.deep_view()[i as int]));
            }
            return Err(e);
        },
    }
    match encode_documents_from(t, vs, i + 1, out) {
        Ok(_) => (),
        Err(e) => return Err(e),
    }
    proof {
        let dv = vs.deep_view();
        assert(dv.skip(i as int).drop_first() =~= dv.skip(i + 1));
        assert(dv.skip(i as int)[0] == dv[i as int]);
        assert(out@ =~= old(out)@ + enc_documents(t, dv.skip(i as int)));
    }
    Ok(())
}

#[verifier::rlimit(100)]
pub fn encode_document_list(t: bool, vs: &Vec<Document>, out: &mut Vec<u8>) -> (r: Result<
    (),
    EncodeError,
>)
    ensures
        (match r {
            Ok(_) => documents_fit(vs.deep_view()) && final(out)@ == old(out)@ + enc_document_list(
                t,
                vs.deep_view(),
            ),
            Err(e) => !documents_fit(vs.deep_view()) && e == EncodeError::TooLong,
        }),
{
    if vs.len() as u64 > LEN_LIMIT {
        return Err(EncodeError::TooLong);
    }
    encode_u32(#[verifier::truncate] (vs.len() as u32), out);
    match encode_documents_from(t, vs, 0, out) {
        Ok(_) => (),
        Err(e) => return Err(e),
    }
    proof {
        assert(vs.deep_view().skip(0) =~= vs.deep_view());
        assert(out@ =~= old(out)@ + enc_document_list(t, vs.deep_view()));
    }
    Ok(())
}

#[verifier::rlimit(100)]
pub fn encode_corpus_body(t: bool, v: &Corpus, out: &mut Vec<u8>) -> (r: Result<(), EncodeError>)
    ensures
        (match r {
            Ok(_) => corpus_fits(v@) && final(out)@ == old(out)@ + enc_corpus(t, v@),
            Err(e) => !corpus_fits(v@) && e == EncodeError::TooLong,
        }),
{
    encode_tag(t, COR_METADATA, out);
    match &v.metadata {
        None => {
            encode_u8(0, out);
        },
        Some(m) => {
            encode_u8(1, out);
            match encode_metadata(t, m, out) {
                Ok(_) => (),
                Err(e) => return Err(e),
            }
        },
    }
    encode_tag(t, COR_DOCUMENTS, out);
    match encode_document_list(t, &v.documents, out) {
        Ok(_) => (),
        Err(e) => return Err(e),
    }
    proof {
        assert(out@ =~= old(out)@ + enc_corpus(t, v@));
    }
    Ok(())
}

/// The sentence-type discriminant is a single byte; it always fits.
pub fn encode_sentence_type(v: &SentenceType, out: &mut Vec<u8>)
    ensures
        final(out)@ == old(out)@ + enc_sentence_type(*v),
{
    match v {
        SentenceType::Source => encode_u8(0, out),
        SentenceType::Translation => encode_u8(1, out),
    }
    proof {
        assert(out@ =~= old(out)@ + enc_sentence_type(*v));
    }
}

#[verifier::rlimit(50)]
pub fn encode_translation_body(t: bool, v: &Translation, out: &mut Vec<u8>) -> (r: Result<
    (),
    EncodeError,
>)
    ensures
        (match r {
            Ok(_) => translation_fits(v@) && final(out)@ == old(out)@ + enc_translation(t, v@),
            Err(e) => !translation_fits(v@) && e == EncodeError::TooLong,
        }),
{
    encode_tag(t, TRA_ID, out);
    encode_u32(v.id, out);
    encode_tag(t, TRA_LANG, out);
    match encode_str(v.lang.as_str(), out) {
        Ok(_) => (),
        Err(e) => return Err(e),
    }
    encode_tag(t, TRA_TYPE, out);
    encode_sentence_type(&v.sentence_type, out);
    encode_tag(t, TRA_TOKENS, out);
    match encode_token_list(t, &v.tokens, out) {
        Ok(_) => (),
        Err(e) => return Err(e),
    }
    proof {
        assert(out@ =~= old(out)@ + enc_translation(t, v@));
    }
    Ok(())
}

} // verus!
