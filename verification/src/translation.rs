//! Construction helpers for the standalone `Translation` record.

use crate::schema::{SentenceType, Token, Translation};
use vstd::prelude::*;

verus! {

impl Translation {
    /// The record's id.
    pub fn get_translation_id(&self) -> (r: u32)
        ensures
            r == self.id,
    {
        self.id
    }

    /// A translation record over the given surface forms: token ids count
    /// up from zero in order, and every annotation field is absent.
    pub fn new(id: u32, tokens: &[&str], lang: &str, sent_type: SentenceType) -> (r: Translation)
        requires
            tokens@.len() <= u32::MAX,
        ensures
            r.id == id,
            r.lang@ == lang@,
            r.sentence_type == sent_type,
            r@.tokens.len() == tokens@.len(),
            forall|i: int|
                0 <= i < tokens@.len() ==> (#[trigger] r@.tokens[i]).form == tokens@[i]@
                    && r@.tokens[i].id == i && r@.tokens[i].lemma is None && r@.tokens[i].upos
                    is None && r@.tokens[i].xpos is None && r@.tokens[i].feats is None
                    && r@.tokens[i].head is None && r@.tokens[i].deprel is None && r@.tokens[i].deps
                    is None && r@.tokens[i].misc is None,
    {
        let mut words: Vec<Token> = Vec::new();
        let mut i: usize = 0;
        while i < tokens.len()
            invariant
                i <= tokens@.len(),
                tokens@.len() <= u32::MAX,
                words@.len() == i,
                forall|j: int|
                    0 <= j < i ==> (#[trigger] words.deep_view()[j]).form == tokens@[j]@
                        && words.deep_view()[j].id == j && words.deep_view()[j].lemma is None
                        && words.deep_view()[j].upos is None && words.deep_view()[j].xpos is None
                        && words.deep_view()[j].feats is None && words.deep_view()[j].head is None
                        && words.deep_view()[j].deprel is None && words.deep_view()[j].deps is None
                        && words.deep_view()[j].misc is None,
            decreases tokens@.len() - i,
        {
            let tok = Token::new(#[verifier::truncate] (i as u32), tokens[i]);
            let ghost w0 = words.deep_view();
            words.push(tok);
            proof {
                assert(words.deep_view() =~= w0.push(tok@));
            }
            i += 1;
        }
        Translation { lang: lang.to_owned(), id, sentence_type: sent_type, tokens: words }
    }
}

} // verus!
