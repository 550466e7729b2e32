//! A container library for linguistic corpora: documents made of sentences,
//! which hold ordered tokens and recursively nested translations. The corpus
//! tree can be persisted to bytes and restored losslessly through one of
//! several interchangeable encodings, selected by file extension.

pub mod codec;
pub mod decode;
pub mod enc;
pub mod encode;
pub mod error;
pub mod format;
pub mod gzip;
pub mod wire;
pub mod corporeum;
pub mod model;
pub mod schema;
pub mod translation;

pub use corporeum::Corporeum;
pub use error::{CorporeumError, DecodeError, EncodeError};
pub use format::Format;
pub use schema::{
    Author, Corpus, Document, Metadata, Sentence, SentenceType, Token, Translation,
};
