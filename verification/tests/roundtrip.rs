use corporum::codec::{decode_corpus, encode_corpus};
use corporum::schema::{
    Author, Corpus, Document, Metadata, Sentence, SentenceType, Token, Translation,
};
use corporum::Format;

fn all_formats() -> Vec<Format> {
    vec![Format::Tagged, Format::Binary, Format::Archive, Format::ArchiveGz]
}

fn empty_corpus() -> Corpus {
    Corpus { metadata: None, documents: Vec::new() }
}

fn bare_token(id: u32, form: &str) -> Token {
    Token::new(id, form)
}

fn full_token(id: u32) -> Token {
    Token {
        id,
        form: "running".to_string(),
        lemma: Some("run".to_string()),
        upos: Some("VERB".to_string()),
        xpos: Some("VBG".to_string()),
        feats: Some("Tense=Pres".to_string()),
        head: Some("2".to_string()),
        deprel: Some("root".to_string()),
        deps: Some("2:root".to_string()),
        misc: Some("SpaceAfter=No".to_string()),
    }
}

fn nested_corpus() -> Corpus {
    // Depth three: a sentence whose translation itself holds a translation.
    let level3 = Sentence {
        id: 3,
        lang: "cs".to_string(),
        tokens: vec![bare_token(0, "ahoj")],
        translations: Vec::new(),
    };
    let level2 = Sentence {
        id: 2,
        lang: "de".to_string(),
        tokens: vec![bare_token(0, "hallo"), bare_token(1, "welt")],
        translations: vec![level3],
    };
    let level1 = Sentence {
        id: 1,
        lang: "en".to_string(),
        tokens: vec![bare_token(0, "hello"), full_token(1)],
        translations: vec![level2],
    };
    let doc = Document {
        description: Some("greetings".to_string()),
        id: 7,
        sentences: vec![level1],
        source: None,
    };
    let metadata = Metadata {
        authors: vec![
            Author {
                first_name: "Ada".to_string(),
                last_name: "Lovelace".to_string(),
                mail: Some("ada@example.org".to_string()),
            },
            Author {
                first_name: "Alan".to_string(),
                last_name: "Turing".to_string(),
                mail: None,
            },
        ],
        created: Some(1_700_000_000),
        description: None,
        modified: Some(-12),
        name: "greeting corpus".to_string(),
        version: 3,
    };
    Corpus { metadata: Some(metadata), documents: vec![doc] }
}

#[test]
fn round_trip_empty_corpus_every_format() {
    for f in all_formats() {
        let bytes = encode_corpus(f, &empty_corpus()).unwrap();
        let back = decode_corpus(f, &bytes).unwrap();
        assert_eq!(back, empty_corpus());
    }
}

#[test]
fn round_trip_nested_corpus_every_format() {
    for f in all_formats() {
        let c = nested_corpus();
        let bytes = encode_corpus(f, &c).unwrap();
        let back = decode_corpus(f, &bytes).unwrap();
        assert_eq!(back, c);
    }
}

#[test]
fn round_trip_keeps_nested_translation_order() {
    let c = nested_corpus();
    let bytes = encode_corpus(Format::Binary, &c).unwrap();
    let back = decode_corpus(Format::Binary, &bytes).unwrap();
    let s1 = &back.documents[0].sentences[0];
    assert_eq!(s1.lang, "en");
    assert_eq!(s1.tokens[0].form, "hello");
    let s2 = &s1.translations[0];
    assert_eq!(s2.lang, "de");
    assert_eq!(s2.tokens[0].form, "hallo");
    assert_eq!(s2.tokens[1].form, "welt");
    let s3 = &s2.translations[0];
    assert_eq!(s3.lang, "cs");
    assert_eq!(s3.tokens[0].form, "ahoj");
    assert!(s3.translations.is_empty());
}

#[test]
fn token_optional_fields_are_independent() {
    // All nine annotation fields absent, and all nine present: both shapes
    // round-trip unchanged in every format.
    for f in all_formats() {
        for tok in [bare_token(5, "word"), full_token(5)] {
            let sentence = Sentence {
                id: 1,
                lang: "en".to_string(),
                tokens: vec![tok],
                translations: Vec::new(),
            };
            let c = Corpus {
                metadata: None,
                documents: vec![Document {
                    description: None,
                    id: 0,
                    sentences: vec![sentence],
                    source: None,
                }],
            };
            let bytes = encode_corpus(f, &c).unwrap();
            let back = decode_corpus(f, &bytes).unwrap();
            assert_eq!(back, c);
        }
    }
}

#[test]
fn round_trip_translation_record() {
    for f in all_formats() {
        let t = Translation::new(9, &["ahoj", "svete"], "cs", SentenceType::Translation);
        let bytes = corporum::codec::encode_translation(f, &t).unwrap();
        let back = corporum::codec::decode_translation(f, &bytes).unwrap();
        assert_eq!(back, t);
        assert_eq!(back.get_translation_id(), 9);
    }
}

#[test]
fn formats_differ_on_the_wire() {
    let c = nested_corpus();
    let tagged = encode_corpus(Format::Tagged, &c).unwrap();
    let binary = encode_corpus(Format::Binary, &c).unwrap();
    let archive = encode_corpus(Format::Archive, &c).unwrap();
    assert_ne!(tagged, binary);
    assert_ne!(binary, archive);
    assert_eq!(&archive[4..], &binary[..]);
}
