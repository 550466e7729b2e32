use corporum::{Corporeum, CorporeumError, DecodeError, Format};
use corporum::codec::decode_corpus;
use corporum::schema::{Corpus, Document, Sentence, Token};

#[test]
fn empty_corpus_saves_and_loads() {
    let corp = Corporeum::new("out.bin");
    let bytes = corp.save().unwrap();
    let loaded = Corporeum::load("out.bin", &bytes).unwrap();
    assert!(loaded.corpus().metadata.is_none());
    assert!(loaded.corpus().documents.is_empty());
}

#[test]
fn single_token_survives_save_and_reload() {
    let mut corp = Corporeum::new("hello.tag");
    let token = Token::new(0, "hello");
    assert_eq!(token.form, "hello");
    let sentence = Sentence {
        id: 0,
        lang: "en".to_string(),
        tokens: vec![token],
        translations: Vec::new(),
    };
    corp.corpus_mut().documents.push(Document {
        description: None,
        id: 0,
        sentences: vec![sentence],
        source: None,
    });
    let bytes = corp.save().unwrap();
    let loaded = Corporeum::load("hello.tag", &bytes).unwrap();
    let tok = &loaded.corpus().documents[0].sentences[0].tokens[0];
    assert_eq!(tok.form, "hello");
    assert_eq!(loaded.corpus().documents[0].sentences[0].lang, "en");
    assert!(tok.lemma.is_none());
    assert!(tok.upos.is_none());
    assert!(tok.xpos.is_none());
    assert!(tok.feats.is_none());
    assert!(tok.head.is_none());
    assert!(tok.deprel.is_none());
    assert!(tok.deps.is_none());
    assert!(tok.misc.is_none());
}

#[test]
fn every_registered_extension_selects_its_codec() {
    let corp = Corporeum::new("unused.bin");
    for (ext, format) in [
        ("corpus.tag", Format::Tagged),
        ("corpus.bin", Format::Binary),
        ("corpus.arc", Format::Archive),
        ("corpus.arc.gz", Format::ArchiveGz),
    ] {
        let bytes = corp.save_as(ext).unwrap();
        // The same bytes decode under that format's codec directly...
        let direct = decode_corpus(format, &bytes).unwrap();
        assert_eq!(&direct, corp.corpus());
        // ...and through the facade's dispatch.
        let loaded = Corporeum::load(ext, &bytes).unwrap();
        assert_eq!(loaded.corpus(), corp.corpus());
    }
}

#[test]
fn unregistered_extension_is_rejected() {
    let corp = Corporeum::new("out.xyz");
    assert_eq!(corp.save(), Err(CorporeumError::InvalidExtension));
    assert_eq!(
        Corporeum::load("out.xyz", &[]).unwrap_err(),
        CorporeumError::InvalidExtension
    );
    assert_eq!(
        Corporeum::load("no_extension", &[]).unwrap_err(),
        CorporeumError::InvalidExtension
    );
    // Case-sensitive, exact: neither a different case nor a bare prefix
    // matches.
    assert_eq!(
        Corporeum::load("out.BIN", &[]).unwrap_err(),
        CorporeumError::InvalidExtension
    );
}

#[test]
fn compressed_archive_round_trips_and_rejects_truncation() {
    let mut corp = Corporeum::new("c.arc.gz");
    corp.corpus_mut().documents.push(Document {
        description: Some("compressed".to_string()),
        id: 1,
        sentences: vec![Sentence {
            id: 0,
            lang: "en".to_string(),
            tokens: vec![Token::new(0, "zip")],
            translations: Vec::new(),
        }],
        source: Some("unit".to_string()),
    });
    let bytes = corp.save().unwrap();
    // The compressed size is recorded in the returned buffer, and the
    // stream is real gzip: it starts with the gzip magic, not with our
    // archive frame.
    assert!(bytes.len() > 2);
    assert_eq!(bytes[0], 0x1f);
    assert_eq!(bytes[1], 0x8b);
    let loaded = Corporeum::load("c.arc.gz", &bytes).unwrap();
    assert_eq!(loaded.corpus(), corp.corpus());
    // Truncated compressed input fails as a decompression error, never as
    // a codec decode error.
    let truncated = &bytes[..bytes.len() - 3];
    assert_eq!(
        Corporeum::load("c.arc.gz", truncated).unwrap_err(),
        CorporeumError::Decompression
    );
}

#[test]
fn failed_load_keeps_error_classes_apart() {
    // Bytes that decompress but do not decode are a decode error.
    let garbage_gz = {
        let corp = Corporeum::new("x.arc.gz");
        let mut good = corp.save().unwrap();
        // Destroy the archive inside by re-compressing junk.
        good.clear();
        good
    };
    assert!(matches!(
        Corporeum::load("x.arc.gz", &garbage_gz).unwrap_err(),
        CorporeumError::Decompression
    ));
}

#[test]
fn malformed_bytes_report_their_offset() {
    // An empty buffer is truncated at the very first field.
    match Corporeum::load("c.bin", &[]).unwrap_err() {
        CorporeumError::Decode(DecodeError::Truncated { offset }) => assert_eq!(offset, 0),
        other => panic!("unexpected error: {other:?}"),
    }
    // A metadata presence marker outside 0 or 1.
    match Corporeum::load("c.bin", &[9]).unwrap_err() {
        CorporeumError::Decode(DecodeError::Discriminant { offset }) => assert_eq!(offset, 0),
        other => panic!("unexpected error: {other:?}"),
    }
    // Junk after a complete corpus.
    let corp = Corporeum::new("c.bin");
    let mut bytes = corp.save().unwrap();
    let end = bytes.len();
    bytes.push(0);
    match Corporeum::load("c.bin", &bytes).unwrap_err() {
        CorporeumError::Decode(DecodeError::TrailingBytes { offset }) => assert_eq!(offset, end),
        other => panic!("unexpected error: {other:?}"),
    }
    // An archive whose frame disagrees with the buffer's length.
    match Corporeum::load("c.arc", &[5, 0, 0, 0, 1]).unwrap_err() {
        CorporeumError::Decode(DecodeError::FrameLength { offset }) => assert_eq!(offset, 0),
        other => panic!("unexpected error: {other:?}"),
    }
    // In the self-describing format every field opens with its tag.
    match Corporeum::load("c.tag", &[99]).unwrap_err() {
        CorporeumError::Decode(DecodeError::FieldTag { offset }) => assert_eq!(offset, 0),
        other => panic!("unexpected error: {other:?}"),
    }
    // A string whose bytes are not valid text: a translation record with a
    // one-byte language that is not UTF-8.
    let bad = vec![0, 0, 0, 0, 1, 0, 0, 0, 0xff, 0, 0, 0, 0, 0];
    match corporum::codec::decode_translation(Format::Binary, &bad).unwrap_err() {
        CorporeumError::Decode(DecodeError::Utf8 { offset }) => assert_eq!(offset, 8),
        other => panic!("unexpected error: {other:?}"),
    }
}

#[test]
fn save_as_leaves_home_path_alone() {
    let corp = Corporeum::new("home.bin");
    let as_tagged = corp.save_as("elsewhere.tag").unwrap();
    let as_home = corp.save().unwrap();
    // Saving elsewhere used the other codec; saving home still binary.
    assert_ne!(as_tagged, as_home);
    let back = Corporeum::load("elsewhere.tag", &as_tagged).unwrap();
    assert_eq!(back.corpus(), corp.corpus());
}
