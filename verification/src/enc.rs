//! The byte grammar of the corpus tree, shared by the structured encodings.
//!
//! Fields are laid out in declaration order. In the self-describing variant
//! (`tagged == true`) every field is introduced by its tag byte, so a reader
//! can identify each field in the raw bytes; the binary-stable variant packs
//! the same field encodings back to back with no tags. Sequences carry a
//! 32-bit count, optional values a one-byte presence marker.

use crate::model::{
    AuthorV, CorpusV, DocumentV, MetadataV, SentenceV, TokenV, TranslationV,
};
use crate::schema::SentenceType;
use crate::wire::{
    enc_i64, enc_opt_i64, enc_opt_str, enc_str, enc_u16, enc_u32, tag_of,
};
use vstd::prelude::*;

verus! {

broadcast use {
    vstd::seq::axiom_seq_index_decreases,
    vstd::seq::axiom_seq_subrange_decreases,
};

pub const TOK_ID: u8 = 1;

pub const TOK_FORM: u8 = 2;

pub const TOK_LEMMA: u8 = 3;

pub const TOK_UPOS: u8 = 4;

pub const TOK_XPOS: u8 = 5;

pub const TOK_FEATS: u8 = 6;

pub const TOK_HEAD: u8 = 7;

pub const TOK_DEPREL: u8 = 8;

pub const TOK_DEPS: u8 = 9;

pub const TOK_MISC: u8 = 10;

pub const SEN_ID: u8 = 1;

pub const SEN_LANG: u8 = 2;

pub const SEN_TOKENS: u8 = 3;

pub const SEN_TRANSLATIONS: u8 = 4;

pub const AUT_FIRST_NAME: u8 = 1;

pub const AUT_LAST_NAME: u8 = 2;

pub const AUT_MAIL: u8 = 3;

pub const MET_AUTHORS: u8 = 1;

pub const MET_CREATED: u8 = 2;

pub const MET_DESCRIPTION: u8 = 3;

pub const MET_MODIFIED: u8 = 4;

pub const MET_NAME: u8 = 5;

pub const MET_VERSION: u8 = 6;

pub const DOC_DESCRIPTION: u8 = 1;

pub const DOC_ID: u8 = 2;

pub const DOC_SENTENCES: u8 = 3;

pub const DOC_SOURCE: u8 = 4;

pub const COR_METADATA: u8 = 1;

pub const COR_DOCUMENTS: u8 = 2;

pub const TRA_ID: u8 = 1;

pub const TRA_LANG: u8 = 2;

pub const TRA_TYPE: u8 = 3;

pub const TRA_TOKENS: u8 = 4;

/// The first half of a token: id, surface form, and the first three
/// annotation fields.
pub open spec fn enc_token_front(
    t: bool,
    id: u32,
    form: Seq<char>,
    lemma: Option<Seq<char>>,
    upos: Option<Seq<char>>,
    xpos: Option<Seq<char>>,
) -> Seq<u8> {
    (tag_of(t, TOK_ID) + enc_u32(id)) + (tag_of(t, TOK_FORM) + enc_str(form)) + (tag_of(
        t,
        TOK_LEMMA,
    ) + enc_opt_str(lemma)) + (tag_of(t, TOK_UPOS) + enc_opt_str(upos)) + (tag_of(t, TOK_XPOS)
        + enc_opt_str(xpos))
}

/// The second half of a token: the remaining annotation fields.
pub open spec fn enc_token_back(
    t: bool,
    feats: Option<Seq<char>>,
    head: Option<Seq<char>>,
    deprel: Option<Seq<char>>,
    deps: Option<Seq<char>>,
    misc: Option<Seq<char>>,
) -> Seq<u8> {
    (tag_of(t, TOK_FEATS) + enc_opt_str(feats)) + (tag_of(t, TOK_HEAD) + enc_opt_str(head)) + (
    tag_of(t, TOK_DEPREL) + enc_opt_str(deprel)) + (tag_of(t, TOK_DEPS) + enc_opt_str(deps)) + (
    tag_of(t, TOK_MISC) + enc_opt_str(misc))
}

pub open spec fn enc_token(t: bool, v: TokenV) -> Seq<u8> {
    enc_token_front(t, v.id, v.form, v.lemma, v.upos, v.xpos) + enc_token_back(
        t,
        v.feats,
        v.head,
        v.deprel,
        v.deps,
        v.misc,
    )
}

/// Every token field contributes one byte segment of its own: the token's
/// encoding is the concatenation of ten segments, each a function of a
/// single field. No field's presence or value affects another field's
/// segment; in particular the nine optional annotation fields are encoded
/// independently of one another.
pub proof fn lemma_token_field_independence(t: bool, v: TokenV)
    ensures
        enc_token(t, v) == (tag_of(t, TOK_ID) + enc_u32(v.id)) + (tag_of(t, TOK_FORM) + enc_str(
            v.form,
        )) + (tag_of(t, TOK_LEMMA) + enc_opt_str(v.lemma)) + (tag_of(t, TOK_UPOS) + enc_opt_str(
            v.upos,
        )) + (tag_of(t, TOK_XPOS) + enc_opt_str(v.xpos)) + (tag_of(t, TOK_FEATS) + enc_opt_str(
            v.feats,
        )) + (tag_of(t, TOK_HEAD) + enc_opt_str(v.head)) + (tag_of(t, TOK_DEPREL) + enc_opt_str(
            v.deprel,
        )) + (tag_of(t, TOK_DEPS) + enc_opt_str(v.deps)) + (tag_of(t, TOK_MISC) + enc_opt_str(
            v.misc,
        )),
{
    assert(enc_token(t, v) =~= (tag_of(t, TOK_ID) + enc_u32(v.id)) + (tag_of(t, TOK_FORM)
        + enc_str(v.form)) + (tag_of(t, TOK_LEMMA) + enc_opt_str(v.lemma)) + (tag_of(t, TOK_UPOS)
        + enc_opt_str(v.upos)) + (tag_of(t, TOK_XPOS) + enc_opt_str(v.xpos)) + (tag_of(
        t,
        TOK_FEATS,
    ) + enc_opt_str(v.feats)) + (tag_of(t, TOK_HEAD) + enc_opt_str(v.head)) + (tag_of(
        t,
        TOK_DEPREL,
    ) + enc_opt_str(v.deprel)) + (tag_of(t, TOK_DEPS) + enc_opt_str(v.deps)) + (tag_of(t, TOK_MISC)
        + enc_opt_str(v.misc)));
}

pub open spec fn enc_tokens(t: bool, vs: Seq<TokenV>) -> Seq<u8>
    decreases vs.len(),
{
    if vs.len() == 0 {
        Seq::empty()
    } else {
        enc_token(t, vs[0]) + enc_tokens(t, vs.drop_first())
    }
}

/// A token sequence: its 32-bit count, then the tokens back to back.
pub open spec fn enc_token_list(t: bool, vs: Seq<TokenV>) -> Seq<u8> {
    enc_u32(vs.len() as u32) + enc_tokens(t, vs)
}

/// The head of a sentence: its id and language tag.
pub open spec fn enc_sentence_head(t: bool, id: u32, lang: Seq<char>) -> Seq<u8> {
    (tag_of(t, SEN_ID) + enc_u32(id)) + (tag_of(t, SEN_LANG) + enc_str(lang))
}

/// Everything in a sentence but its translations.
pub open spec fn enc_sentence_parts(t: bool, id: u32, lang: Seq<char>, tokens: Seq<TokenV>) -> Seq<
    u8,
> {
    enc_sentence_head(t, id, lang) + (tag_of(t, SEN_TOKENS) + enc_token_list(t, tokens))
}

pub open spec fn enc_sentence(t: bool, v: SentenceV) -> Seq<u8>
    decreases v, 1int,
{
    enc_sentence_parts(t, v.id, v.lang, v.tokens) + (tag_of(t, SEN_TRANSLATIONS)
        + enc_sentence_list(t, v.translations))
}

pub open spec fn enc_sentences(t: bool, vs: Seq<SentenceV>) -> Seq<u8>
    decreases vs, 0int,
{
    if vs.len() == 0 {
        Seq::empty()
    } else {
        enc_sentence(t, vs[0]) + enc_sentences(t, vs.drop_first())
    }
}

/// A sentence sequence: its 32-bit count, then the sentences back to back.
pub open spec fn enc_sentence_list(t: bool, vs: Seq<SentenceV>) -> Seq<u8>
    decreases vs, 1int,
{
    enc_u32(vs.len() as u32) + enc_sentences(t, vs)
}

pub open spec fn enc_author(t: bool, v: AuthorV) -> Seq<u8> {
    (tag_of(t, AUT_FIRST_NAME) + enc_str(v.first_name)) + (tag_of(t, AUT_LAST_NAME) + enc_str(
        v.last_name,
    )) + (tag_of(t, AUT_MAIL) + enc_opt_str(v.mail))
}

pub open spec fn enc_authors(t: bool, vs: Seq<AuthorV>) -> Seq<u8>
    decreases vs.len(),
{
    if vs.len() == 0 {
        Seq::empty()
    } else {
        enc_author(t, vs[0]) + enc_authors(t, vs.drop_first())
    }
}

/// An author sequence: its 32-bit count, then the authors back to back.
pub open spec fn enc_author_list(t: bool, vs: Seq<AuthorV>) -> Seq<u8> {
    enc_u32(vs.len() as u32) + enc_authors(t, vs)
}

pub open spec fn enc_metadata(t: bool, v: MetadataV) -> Seq<u8> {
    (tag_of(t, MET_AUTHORS) + enc_author_list(t, v.authors)) + (tag_of(t, MET_CREATED)
        + enc_opt_i64(v.created)) + (tag_of(t, MET_DESCRIPTION) + enc_opt_str(v.description)) + (
    tag_of(t, MET_MODIFIED) + enc_opt_i64(v.modified)) + (tag_of(t, MET_NAME) + enc_str(v.name)) + (
    tag_of(t, MET_VERSION) + enc_u16(v.version))
}

/// Optional metadata: a presence marker, then the metadata if present.
pub open spec fn enc_opt_metadata(t: bool, o: Option<MetadataV>) -> Seq<u8> {
    match o {
        None => seq![0u8],
        Some(m) => seq![1u8] + enc_metadata(t, m),
    }
}

pub open spec fn enc_document(t: bool, v: DocumentV) -> Seq<u8> {
    (tag_of(t, DOC_DESCRIPTION) + enc_opt_str(v.description)) + (tag_of(t, DOC_ID) + enc_u32(
        v.id,
    )) + (tag_of(t, DOC_SENTENCES) + enc_sentence_list(t, v.sentences)) + (tag_of(t, DOC_SOURCE)
        + enc_opt_str(v.source))
}

pub open spec fn enc_documents(t: bool, vs: Seq<DocumentV>) -> Seq<u8>
    decreases vs.len(),
{
    if vs.len() == 0 {
        Seq::empty()
    } else {
        enc_document(t, vs[0]) + enc_documents(t, vs.drop_first())
    }
}

/// A document sequence: its 32-bit count, then the documents back to back.
pub open spec fn enc_document_list(t: bool, vs: Seq<DocumentV>) -> Seq<u8> {
    enc_u32(vs.len() as u32) + enc_documents(t, vs)
}

/// A whole corpus.
pub open spec fn enc_corpus(t: bool, v: CorpusV) -> Seq<u8> {
    (tag_of(t, COR_METADATA) + enc_opt_metadata(t, v.metadata)) + (tag_of(t, COR_DOCUMENTS)
        + enc_document_list(t, v.documents))
}

/// The sentence-type discriminant: one byte.
pub open spec fn enc_sentence_type(v: SentenceType) -> Seq<u8> {
    match v {
        SentenceType::Source => seq![0u8],
        SentenceType::Translation => seq![1u8],
    }
}

/// A standalone translation record.
pub open spec fn enc_translation(t: bool, v: TranslationV) -> Seq<u8> {
    (tag_of(t, TRA_ID) + enc_u32(v.id)) + (tag_of(t, TRA_LANG) + enc_str(v.lang)) + (tag_of(
        t,
        TRA_TYPE,
    ) + enc_sentence_type(v.sentence_type)) + (tag_of(t, TRA_TOKENS) + enc_token_list(t, v.tokens))
}

} // verus!
