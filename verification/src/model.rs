//! Mathematical views of the schema types, and the bounds under which a
//! value is representable by the encodings.
//!
//! Every schema type has a view made of `Seq`, `Option` and plain integers;
//! all persistence contracts are stated over these views. `*_fits` says that
//! every string and sequence in a value is short enough for the encodings'
//! 32-bit length prefixes.

use crate::schema::{
    Author, Corpus, Document, Metadata, Sentence, SentenceType, Token, Translation,
};
use vstd::prelude::*;
use vstd::utf8::encode_utf8;

verus! {

broadcast use {
    vstd::std_specs::vec::axiom_vec_index_decreases,
    vstd::std_specs::vec::axiom_vec_decreases_to_view,
    vstd::seq::axiom_seq_index_decreases,
};

/// Largest length a 32-bit prefix can record.
pub const LEN_LIMIT: u64 = 0xffff_ffff;

#[verifier::ext_equal]
pub struct TokenV {
    pub id: u32,
    pub form: Seq<char>,
    pub lemma: Option<Seq<char>>,
    pub upos: Option<Seq<char>>,
    pub xpos: Option<Seq<char>>,
    pub feats: Option<Seq<char>>,
    pub head: Option<Seq<char>>,
    pub deprel: Option<Seq<char>>,
    pub deps: Option<Seq<char>>,
    pub misc: Option<Seq<char>>,
}

#[verifier::ext_equal]
pub struct SentenceV {
    pub id: u32,
    pub lang: Seq<char>,
    pub tokens: Seq<TokenV>,
    pub translations: Seq<SentenceV>,
}

#[verifier::ext_equal]
pub struct AuthorV {
    pub first_name: Seq<char>,
    pub last_name: Seq<char>,
    pub mail: Option<Seq<char>>,
}

#[verifier::ext_equal]
pub struct MetadataV {
    pub authors: Seq<AuthorV>,
    pub created: Option<i64>,
    pub description: Option<Seq<char>>,
    pub modified: Option<i64>,
    pub name: Seq<char>,
    pub version: u16,
}

#[verifier::ext_equal]
pub struct DocumentV {
    pub description: Option<Seq<char>>,
    pub id: u32,
    pub sentences: Seq<SentenceV>,
    pub source: Option<Seq<char>>,
}

#[verifier::ext_equal]
pub struct CorpusV {
    pub metadata: Option<MetadataV>,
    pub documents: Seq<DocumentV>,
}

#[verifier::ext_equal]
pub struct TranslationV {
    pub id: u32,
    pub lang: Seq<char>,
    pub sentence_type: SentenceType,
    pub tokens: Seq<TokenV>,
}

/// The view of optional metadata.
pub open spec fn opt_metadata_view(o: Option<Metadata>) -> Option<MetadataV> {
    match o {
        Some(m) => Some(m.view()),
        None => None,
    }
}

/// The view of an optional string.
pub open spec fn opt_view(o: Option<String>) -> Option<Seq<char>> {
    o.deep_view()
}

impl View for Token {
    type V = TokenV;

    open spec fn view(&self) -> TokenV {
        TokenV {
            id: self.id,
            form: self.form@,
            lemma: opt_view(self.lemma),
            upos: opt_view(self.upos),
            xpos: opt_view(self.xpos),
            feats: opt_view(self.feats),
            head: opt_view(self.head),
            deprel: opt_view(self.deprel),
            deps: opt_view(self.deps),
            misc: opt_view(self.misc),
        }
    }
}

impl DeepView for Token {
    type V = TokenV;

    open spec fn deep_view(&self) -> TokenV {
        self.view()
    }
}

/// The view of a sentence, applied recursively to its translations.
pub open spec fn sentence_view(s: Sentence) -> SentenceV
    decreases s,
    via sentence_view_dec
{
    SentenceV {
        id: s.id,
        lang: s.lang@,
        tokens: s.tokens.deep_view(),
        translations: Seq::new(
            s.translations@.len(),
            |i: int|
                if 0 <= i < s.translations@.len() {
                    sentence_view(s.translations@[i])
                } else {
                    arbitrary()
                },
        ),
    }
}

#[via_fn]
proof fn sentence_view_dec(s: Sentence) {
    assert forall|i: int| 0 <= i < s.translations@.len() implies (decreases_to!(s
        => s.translations@[i])) by {
        assert(decreases_to!(s => s.translations));
        assert(decreases_to!(s.translations => s.translations@));
        assert(decreases_to!(s.translations@ => s.translations@[i]));
    }
}

impl View for Sentence {
    type V = SentenceV;

    open spec fn view(&self) -> SentenceV {
        sentence_view(*self)
    }
}

impl DeepView for Sentence {
    type V = SentenceV;

    open spec fn deep_view(&self) -> SentenceV {
        sentence_view(*self)
    }
}

impl View for Author {
    type V = AuthorV;

    open spec fn view(&self) -> AuthorV {
        AuthorV {
            first_name: self.first_name@,
            last_name: self.last_name@,
            mail: opt_view(self.mail),
        }
    }
}

impl DeepView for Author {
    type V = AuthorV;

    open spec fn deep_view(&self) -> AuthorV {
        self.view()
    }
}

impl View for Metadata {
    type V = MetadataV;

    open spec fn view(&self) -> MetadataV {
        MetadataV {
            authors: self.authors.deep_view(),
            created: self.created,
            description: opt_view(self.description),
            modified: self.modified,
            name: self.name@,
            version: self.version,
        }
    }
}

impl View for Document {
    type V = DocumentV;

    open spec fn view(&self) -> DocumentV {
        DocumentV {
            description: opt_view(self.description),
            id: self.id,
            sentences: self.sentences.deep_view(),
            source: opt_view(self.source),
        }
    }
}

impl DeepView for Document {
    type V = DocumentV;

    open spec fn deep_view(&self) -> DocumentV {
        self.view()
    }
}

impl View for Corpus {
    type V = CorpusV;

    open spec fn view(&self) -> CorpusV {
        CorpusV {
            metadata: opt_metadata_view(self.metadata),
            documents: self.documents.deep_view(),
        }
    }
}

impl View for Translation {
    type V = TranslationV;

    open spec fn view(&self) -> TranslationV {
        TranslationV {
            id: self.id,
            lang: self.lang@,
            sentence_type: self.sentence_type,
            tokens: self.tokens.deep_view(),
        }
    }
}

/// The string's UTF-8 form is short enough for a 32-bit length prefix.
pub open spec fn str_fits(s: Seq<char>) -> bool {
    encode_utf8(s).len() <= LEN_LIMIT
}

pub open spec fn opt_str_fits(o: Option<Seq<char>>) -> bool {
    o matches Some(s) ==> str_fits(s)
}

pub open spec fn token_fits(t: TokenV) -> bool {
    &&& str_fits(t.form)
    &&& opt_str_fits(t.lemma)
    &&& opt_str_fits(t.upos)
    &&& opt_str_fits(t.xpos)
    &&& opt_str_fits(t.feats)
    &&& opt_str_fits(t.head)
    &&& opt_str_fits(t.deprel)
    &&& opt_str_fits(t.deps)
    &&& opt_str_fits(t.misc)
}

pub open spec fn tokens_fit(ts: Seq<TokenV>) -> bool {
    &&& ts.len() <= LEN_LIMIT
    &&& forall|i: int| 0 <= i < ts.len() ==> token_fits(#[trigger] ts[i])
}

pub open spec fn sentence_fits(s: SentenceV) -> bool
    decreases s, 1int,
{
    &&& str_fits(s.lang)
    &&& tokens_fit(s.tokens)
    &&& sentences_fit(s.translations)
}

pub open spec fn sentences_fit(ss: Seq<SentenceV>) -> bool
    decreases ss, 0int,
{
    &&& ss.len() <= LEN_LIMIT
    &&& forall|i: int| 0 <= i < ss.len() ==> sentence_fits(#[trigger] ss[i])
}

pub open spec fn author_fits(a: AuthorV) -> bool {
    &&& str_fits(a.first_name)
    &&& str_fits(a.last_name)
    &&& opt_str_fits(a.mail)
}

pub open spec fn authors_fit(aa: Seq<AuthorV>) -> bool {
    &&& aa.len() <= LEN_LIMIT
    &&& forall|i: int| 0 <= i < aa.len() ==> author_fits(#[trigger] aa[i])
}

pub open spec fn metadata_fits(m: MetadataV) -> bool {
    &&& authors_fit(m.authors)
    &&& opt_str_fits(m.description)
    &&& str_fits(m.name)
}

pub open spec fn document_fits(d: DocumentV) -> bool {
    &&& opt_str_fits(d.description)
    &&& sentences_fit(d.sentences)
    &&& opt_str_fits(d.source)
}

pub open spec fn documents_fit(dd: Seq<DocumentV>) -> bool {
    &&& dd.len() <= LEN_LIMIT
    &&& forall|i: int| 0 <= i < dd.len() ==> document_fits(#[trigger] dd[i])
}

pub open spec fn corpus_fits(c: CorpusV) -> bool {
    &&& (c.metadata matches Some(m) ==> metadata_fits(m))
    &&& documents_fit(c.documents)
}

pub open spec fn translation_fits(t: TranslationV) -> bool {
    &&& str_fits(t.lang)
    &&& tokens_fit(t.tokens)
}

} // verus!
