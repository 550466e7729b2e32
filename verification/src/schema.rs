//! The corpus data model: a tree of entities owned top-down.
//!
//! A `Corpus` holds optional `Metadata` and an ordered sequence of
//! `Document`s; a `Document` holds `Sentence`s; a `Sentence` holds ordered
//! `Token`s and, recursively, its translations into other languages, each
//! itself a `Sentence`. Ownership is strictly tree-shaped, so the recursion
//! cannot form a cycle.

use vstd::prelude::*;

verus! {

/// Root of the tree: optional metadata and an ordered document sequence.
#[derive(Debug, PartialEq)]
pub struct Corpus {
    pub metadata: Option<Metadata>,
    pub documents: Vec<Document>,
}

/// Bookkeeping for a corpus: a required name, an integer version (not
/// semantic), optional description and epoch-like timestamps, and authors.
#[derive(Debug, PartialEq)]
pub struct Metadata {
    pub authors: Vec<Author>,
    pub created: Option<i64>,
    pub description: Option<String>,
    pub modified: Option<i64>,
    pub name: String,
    pub version: u16,
}

/// An author has no identity beyond structural equality.
#[derive(Debug, PartialEq)]
pub struct Author {
    pub first_name: String,
    pub last_name: String,
    pub mail: Option<String>,
}

/// A document: an id, its sentences, and optional description and source
/// label. Ids are caller-assigned; the library does not enforce uniqueness.
#[derive(Debug, PartialEq)]
pub struct Document {
    pub description: Option<String>,
    pub id: u32,
    pub sentences: Vec<Sentence>,
    pub source: Option<String>,
}

/// A sentence in one language, with its ordered tokens and the sentences
/// that translate it. The translations are themselves full sentences.
#[derive(Debug, PartialEq)]
pub struct Sentence {
    pub id: u32,
    pub lang: String,
    pub tokens: Vec<Token>,
    pub translations: Vec<Sentence>,
}

/// One token: an id, the required surface form, and nine independent
/// optional annotation fields mirroring a tabular dependency-annotation
/// format. Each optional field defaults to absent on its own.
#[derive(Debug, PartialEq)]
pub struct Token {
    pub id: u32,
    pub form: String,
    pub lemma: Option<String>,
    pub upos: Option<String>,
    pub xpos: Option<String>,
    pub feats: Option<String>,
    pub head: Option<String>,
    pub deprel: Option<String>,
    pub deps: Option<String>,
    pub misc: Option<String>,
}

/// A standalone, flatter modelling of a translated sentence, kept distinct
/// from `Sentence` and persisted independently of it.
#[derive(Debug, PartialEq)]
pub struct Translation {
    pub id: u32,
    pub lang: String,
    pub sentence_type: SentenceType,
    pub tokens: Vec<Token>,
}

/// Whether a `Translation` record holds the original sentence or one of its
/// renderings into another language.
#[derive(Debug, PartialEq, Eq, Clone, Copy)]
pub enum SentenceType {
    Source,
    Translation,
}

impl Default for Corpus {
    /// The empty corpus: no metadata, no documents.
    fn default() -> (c: Corpus)
        ensures
            c.metadata is None,
            c.documents@.len() == 0,
    {
        Corpus { metadata: None, documents: Vec::new() }
    }
}

impl Token {
    /// A token with the given id and surface form and every annotation
    /// field absent.
    pub fn new(id: u32, form: &str) -> (t: Token)
        ensures
            t.id == id,
            t.form@ == form@,
            t.lemma is None,
            t.upos is None,
            t.xpos is None,
            t.feats is None,
            t.head is None,
            t.deprel is None,
            t.deps is None,
            t.misc is None,
    {
        Token {
            id,
            form: form.to_owned(),
            lemma: None,
            upos: None,
            xpos: None,
            feats: None,
            head: None,
            deprel: None,
            deps: None,
            misc: None,
        }
    }
}

} // verus!
