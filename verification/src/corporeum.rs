//! The persistence facade: one in-memory corpus bound to one home path.
//!
//! The facade computes bytes; reading and writing files is left to the
//! caller, which hands `load` the file's contents and writes what `save`
//! returns. A failed decode never replaces an existing corpus, and a failed
//! encode leaves the corpus untouched: the facade owns no other state.

use crate::codec::{decode_corpus, encode_corpus, encodes, representable};
use crate::error::CorporeumError;
use crate::format::{format_of_path, spec_format_of_path, Format};
use crate::gzip::gunzip_of;
use crate::model::CorpusV;
use crate::schema::Corpus;
use vstd::prelude::*;

verus! {

#[derive(Debug, PartialEq)]
pub struct Corporeum {
    pub original_file_path: String,
    pub corpus: Corpus,
}

impl Corporeum {
    /// An empty corpus bound to the given path. Performs no input or
    /// output; `save` later encodes for the format this path's extension
    /// names.
    pub fn new(buffer: &str) -> (c: Corporeum)
        ensures
            c.original_file_path@ == buffer@,
            c.corpus@.metadata is None,
            c.corpus@.documents.len() == 0,
    {
        Corporeum { original_file_path: buffer.to_owned(), corpus: Corpus::default() }
    }

    /// Builds a facade from a file's path and contents: selects the codec
    /// by the path's extension, decodes, and on success binds the decoded
    /// corpus to that path. Fails with `InvalidExtension` exactly when the
    /// extension names no registered format; decode and decompression
    /// failures pass through, and decoding the bytes a save produced for
    /// this path yields that corpus back.
    pub fn load(source: &str, data: &[u8]) -> (r: Result<Corporeum, CorporeumError>)
        ensures
            spec_format_of_path(source@) is None <==> r == Err::<Corporeum, _>(
                CorporeumError::InvalidExtension,
            ),
            (match (spec_format_of_path(source@), r) {
                (Some(f), Ok(c)) => representable(f, c.corpus@) && encodes(f, c.corpus@, data@)
                    && c.original_file_path@ == source@,
                (Some(f), Err(e)) => (e is Decode || e is Decompression) && ((e is Decompression)
                    <==> (f is ArchiveGz && gunzip_of(data@) is None)),
                (None, _) => true,
            }),
            forall|f: Format, cv: CorpusV|
                spec_format_of_path(source@) == Some(f) && representable(f, cv) && encodes(
                    f,
                    cv,
                    data@,
                ) ==> (r matches Ok(c) && c.corpus@ == cv),
    {
        let f = match format_of_path(source) {
            Some(f) => f,
            None => return Err(CorporeumError::InvalidExtension),
        };
        match decode_corpus(f, data) {
            Ok(corpus) => Ok(Corporeum { original_file_path: source.to_owned(), corpus }),
            Err(e) => Err(e),
        }
    }

    /// Encodes the corpus for the format named by the facade's own home
    /// path and returns the bytes to write there, exactly as `save_as` of
    /// that path.
    pub fn save(&self) -> (r: Result<Vec<u8>, CorporeumError>)
        ensures
            spec_format_of_path(self.original_file_path@) is None <==> r == Err::<Vec<u8>, _>(
                CorporeumError::InvalidExtension,
            ),
            (match (spec_format_of_path(self.original_file_path@), r) {
                (Some(f), Ok(b)) => representable(f, self.corpus@) && encodes(
                    f,
                    self.corpus@,
                    b@,
                ),
                (Some(f), Err(e)) => !representable(f, self.corpus@) && e == CorporeumError::Encode(
                    crate::error::EncodeError::TooLong,
                ),
                (None, _) => true,
            }),
    {
        self.save_as(self.original_file_path.as_str())
    }

    /// Encodes the corpus for the format named by `path`'s extension and
    /// returns the bytes to write there; the facade's home path is
    /// unchanged. Fails with `InvalidExtension` exactly when the extension
    /// names no registered format, and with `Encode` exactly when the
    /// corpus is not representable in the selected format.
    pub fn save_as(&self, path: &str) -> (r: Result<Vec<u8>, CorporeumError>)
        ensures
            spec_format_of_path(path@) is None <==> r == Err::<Vec<u8>, _>(
                CorporeumError::InvalidExtension,
            ),
            (match (spec_format_of_path(path@), r) {
                (Some(f), Ok(b)) => representable(f, self.corpus@) && encodes(
                    f,
                    self.corpus@,
                    b@,
                ),
                (Some(f), Err(e)) => !representable(f, self.corpus@) && e == CorporeumError::Encode(
                    crate::error::EncodeError::TooLong,
                ),
                (None, _) => true,
            }),
    {
        let f = match format_of_path(path) {
            Some(f) => f,
            None => return Err(CorporeumError::InvalidExtension),
        };
        match encode_corpus(f, &self.corpus) {
            Ok(b) => Ok(b),
            Err(e) => Err(CorporeumError::Encode(e)),
        }
    }

    /// Read-only access to the owned corpus.
    pub fn corpus(&self) -> (r: &Corpus)
        ensures
            r == &self.corpus,
    {
        &self.corpus
    }

    /// Exclusive mutable access to the owned corpus; the home path stays
    /// as it is.
    pub fn corpus_mut(&mut self) -> (r: &mut Corpus)
        ensures
            *r == old(self).corpus,
            final(self).corpus == *final(r),
            final(self).original_file_path == old(self).original_file_path,
    {
        &mut self.corpus
    }
}

} // verus!
