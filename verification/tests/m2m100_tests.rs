use vocab::base_vocab::Vocab;
use vocab::error::TokenizerError;
use vocab::m2m100_vocab::{
    language_marker, synthesize_language_markers, M2M100Vocab, FAIRSEQ_LANGUAGE_CODES,
};
use vocab::token_map::TokenMap;

const SMALL: &[u8] =
    "{\"<s>\": 0, \"<pad>\": 1, \"</s>\": 2, \"<unk>\": 3, \"hello\": 4, \"world\": 5, \"\u{2581}the\": 6}"
        .as_bytes();

fn marker(code: &str) -> String {
    if code.chars().count() == 2 {
        format!(">>{}.<<", code)
    } else {
        format!(">>{}<<", code)
    }
}

#[test]
fn language_marker_of_two_characters() {
    assert_eq!(language_marker("af").unwrap(), ">>af.<<");
    assert_eq!(language_marker("zu").unwrap(), ">>zu.<<");
}

#[test]
fn language_marker_of_three_characters() {
    assert_eq!(language_marker("ast").unwrap(), ">>ast<<");
    assert_eq!(language_marker("ilo").unwrap(), ">>ilo<<");
}

#[test]
fn language_marker_refuses_other_lengths() {
    for code in ["", "a", "abcd", "english"] {
        match language_marker(code) {
            Err(TokenizerError::InvalidLanguageCode(refused)) => assert_eq!(refused, code),
            other => panic!("unexpected outcome: {:?}", other),
        }
    }
}

#[test]
fn there_are_a_hundred_languages_in_a_fixed_order() {
    assert_eq!(FAIRSEQ_LANGUAGE_CODES.len(), 100);
    assert_eq!(FAIRSEQ_LANGUAGE_CODES[0], "af");
    assert_eq!(FAIRSEQ_LANGUAGE_CODES[3], "ast");
    assert_eq!(FAIRSEQ_LANGUAGE_CODES[12], "ceb");
    assert_eq!(FAIRSEQ_LANGUAGE_CODES[39], "ilo");
    assert_eq!(FAIRSEQ_LANGUAGE_CODES[99], "zu");
    for code in FAIRSEQ_LANGUAGE_CODES.iter() {
        assert!(code.len() == 2 || code.len() == 3);
    }
}

#[test]
fn synthesis_appends_markers_under_the_next_free_ids() {
    let mut values = TokenMap::new();
    values.insert("a".to_string(), 0);
    values.insert("b".to_string(), 1);
    let (grown, bytes) = synthesize_language_markers(values, &["en", "ceb", "fr"]).unwrap();
    assert_eq!(grown.len(), 5);
    assert_eq!(grown.get(">>en.<<"), Some(2));
    assert_eq!(grown.get(">>ceb<<"), Some(3));
    assert_eq!(grown.get(">>fr.<<"), Some(4));
    assert_eq!(
        grown.tokens(),
        &vec![
            "a".to_string(),
            "b".to_string(),
            ">>en.<<".to_string(),
            ">>ceb<<".to_string(),
            ">>fr.<<".to_string()
        ]
    );
    assert_eq!(bytes, vec![b">>en.<<".to_vec(), b">>ceb<<".to_vec(), b">>fr.<<".to_vec()]);
}

#[test]
fn synthesis_fails_fast_on_a_code_of_another_length() {
    let values = TokenMap::new();
    match synthesize_language_markers(values, &["en", "engl", "x"]) {
        Err(TokenizerError::InvalidLanguageCode(refused)) => assert_eq!(refused, "engl"),
        Err(other) => panic!("unexpected error: {:?}", other),
        Ok(_) => panic!("a code of four characters was accepted"),
    }
}

#[test]
fn synthesis_of_a_marker_that_is_already_a_token_takes_its_id_over() {
    let mut values = TokenMap::new();
    values.insert(">>en.<<".to_string(), 40);
    values.insert("a".to_string(), 41);
    let (grown, _) = synthesize_language_markers(values, &["en", "fr"]).unwrap();
    assert_eq!(grown.len(), 3);
    assert_eq!(grown.get(">>en.<<"), Some(2));
    assert_eq!(grown.get(">>fr.<<"), Some(2));
    assert_eq!(grown.get("a"), Some(41));
}

#[test]
fn plain_map_round_trip() {
    let vocab = M2M100Vocab::from_bytes(SMALL).unwrap();
    let tokens: Vec<String> = vocab.values().tokens().clone();
    assert_eq!(tokens.len(), 107);
    for token in tokens {
        let id = vocab.token_to_id(&token);
        assert_eq!(vocab.id_to_token(&id), token);
    }
}

#[test]
fn plain_map_ids_of_the_artifact_are_kept() {
    let vocab = M2M100Vocab::from_bytes(SMALL).unwrap();
    assert_eq!(vocab.token_to_id("<s>"), 0);
    assert_eq!(vocab.token_to_id("<pad>"), 1);
    assert_eq!(vocab.token_to_id("</s>"), 2);
    assert_eq!(vocab.token_to_id("<unk>"), 3);
    assert_eq!(vocab.token_to_id("hello"), 4);
    assert_eq!(vocab.token_to_id("world"), 5);
    assert_eq!(vocab.token_to_id("\u{2581}the"), 6);
    assert_eq!(vocab.id_to_token(&6), "\u{2581}the");
}

#[test]
fn plain_map_collision_loses_one_direction() {
    let bytes = br#"{"<s>": 0, "<pad>": 1, "</s>": 2, "<unk>": 3, "left": 500, "right": 500}"#;
    let vocab = M2M100Vocab::from_bytes(bytes).unwrap();
    assert_eq!(vocab.token_to_id("left"), 500);
    assert_eq!(vocab.token_to_id("right"), 500);
    assert_eq!(vocab.values().len(), 106);
    assert_eq!(vocab.indices().len(), 105);
    let survivor = vocab.id_to_token(&500);
    assert!(survivor == "left" || survivor == "right");
    let walked = vocab.values().tokens();
    let left = walked.iter().position(|t| t == "left").unwrap();
    let right = walked.iter().position(|t| t == "right").unwrap();
    let later = if left < right { "right" } else { "left" };
    let earlier = if left < right { "left" } else { "right" };
    assert_eq!(survivor, later);
    assert_ne!(vocab.id_to_token(&vocab.token_to_id(earlier)), earlier);
    assert_eq!(vocab.id_to_token(&vocab.token_to_id(later)), later);
}

#[test]
fn plain_map_bijection_consistency() {
    let vocab = M2M100Vocab::from_bytes(SMALL).unwrap();
    assert_eq!(vocab.values().len(), vocab.indices().len());
    assert_eq!(vocab.special_values().len(), vocab.special_indices().len());
    assert_eq!(vocab.special_values().len(), 4);
    for token in vocab.special_values().tokens() {
        let id = vocab.special_values().get(token).unwrap();
        assert_eq!(vocab.values().get(token), Some(id));
        assert_eq!(vocab.special_indices().get(&id), Some(token));
        assert_eq!(vocab.indices().get(&id), Some(token));
    }
    for (id, token) in vocab.indices().iter() {
        assert_eq!(vocab.values().get(token), Some(*id));
    }
}

#[test]
fn plain_map_unknown_fallback() {
    let vocab = M2M100Vocab::from_bytes(SMALL).unwrap();
    assert_eq!(vocab.token_to_id("this-token-does-not-exist-xyz"), 3);
    assert_eq!(vocab.token_to_id("this-token-does-not-exist-xyz"), vocab.token_to_id("<unk>"));
    assert_eq!(vocab.id_to_token(&99999999), "<unk>");
    assert_eq!(vocab.get_unknown_value(), "<unk>");
    assert_eq!(M2M100Vocab::unknown_value(), "<unk>");
}

#[test]
fn plain_map_synthesis_is_deterministic() {
    let first = M2M100Vocab::from_bytes(SMALL).unwrap();
    let second = M2M100Vocab::from_bytes(SMALL).unwrap();
    for (place, code) in FAIRSEQ_LANGUAGE_CODES.iter().enumerate() {
        let token = marker(code);
        let id = first.token_to_id(&token);
        assert_eq!(id, 7 + place as i64);
        assert_eq!(second.token_to_id(&token), id);
        assert_eq!(first.id_to_token(&id), token);
    }
    assert_eq!(first.token_to_id(">>af.<<"), 7);
    assert_eq!(first.token_to_id(">>ast<<"), 10);
    assert_eq!(first.token_to_id(">>zu.<<"), 106);
    assert_eq!(first.token_to_id(">>ast.<<"), 3);
    assert_eq!(first.token_to_id(">>af<<"), 3);
}

#[test]
fn plain_map_markers_follow_the_tokens_of_the_artifact() {
    let vocab = M2M100Vocab::from_bytes(SMALL).unwrap();
    let tokens = vocab.values().tokens();
    let expected: Vec<String> = FAIRSEQ_LANGUAGE_CODES.iter().map(|code| marker(code)).collect();
    assert_eq!(&tokens[7..], &expected[..]);
}

#[test]
fn plain_map_language_codes_bytes() {
    let vocab = M2M100Vocab::from_bytes(SMALL).unwrap();
    let bytes = vocab.language_codes_bytes();
    assert_eq!(bytes.len(), 100);
    assert_eq!(bytes[0], b">>af.<<".to_vec());
    assert_eq!(bytes[3], b">>ast<<".to_vec());
    assert_eq!(bytes[99], b">>zu.<<".to_vec());
    for (place, code) in FAIRSEQ_LANGUAGE_CODES.iter().enumerate() {
        assert_eq!(bytes[place], marker(code).into_bytes());
    }
}

#[test]
fn plain_map_reserved_roles() {
    assert_eq!(M2M100Vocab::pad_value(), Some("<pad>"));
    assert_eq!(M2M100Vocab::sep_value(), Some("</s>"));
    assert_eq!(M2M100Vocab::bos_value(), Some("<s>"));
    assert_eq!(M2M100Vocab::eos_value(), Some("</s>"));
    assert_eq!(M2M100Vocab::cls_value(), None);
    assert_eq!(M2M100Vocab::mask_value(), None);
    let vocab = M2M100Vocab::from_bytes(SMALL).unwrap();
    let special = vocab.special_values();
    assert_eq!(
        special.tokens(),
        &vec!["<unk>".to_string(), "</s>".to_string(), "<s>".to_string(), "<pad>".to_string()]
    );
    assert_eq!(special.get("<unk>"), Some(3));
    assert_eq!(special.get("</s>"), Some(2));
    assert_eq!(special.get("<s>"), Some(0));
    assert_eq!(special.get("<pad>"), Some(1));
    assert_eq!(vocab.special_indices().get(&1), Some(&"<pad>".to_string()));
}

#[test]
fn plain_map_corrupted_artifact_is_a_parse_error() {
    for bytes in [&b"{\"<unk>\": 0"[..], &b""[..], &b"[1, 2]"[..], &b"{\"a\": \"b\"}"[..], &b"{\"a\": 1.5}"[..], &b"{\"a\": 1} x"[..]] {
        match M2M100Vocab::from_bytes(bytes) {
            Err(TokenizerError::VocabularyParsingError(report)) => assert!(!report.is_empty()),
            Err(other) => panic!("unexpected error: {:?}", other),
            Ok(_) => panic!("a corrupted artifact was accepted"),
        }
    }
}

#[test]
fn plain_map_parse_error_carries_the_report_of_the_parser() {
    match M2M100Vocab::from_bytes(b"{\"<unk>\": 0") {
        Err(TokenizerError::VocabularyParsingError(report)) => {
            assert_eq!(report, "EOF while parsing an object at line 1 column 11")
        },
        Err(other) => panic!("unexpected error: {:?}", other),
        Ok(_) => panic!("a corrupted artifact was accepted"),
    }
}

#[test]
fn plain_map_missing_reserved_token() {
    let bytes = br#"{"<s>": 0, "<pad>": 1, "<unk>": 3}"#;
    match M2M100Vocab::from_bytes(bytes) {
        Err(TokenizerError::TokenNotFound(token)) => assert_eq!(token, "</s>"),
        Err(other) => panic!("unexpected error: {:?}", other),
        Ok(_) => panic!("a vocabulary without separator was built"),
    }
    match M2M100Vocab::from_bytes(b"{}") {
        Err(TokenizerError::TokenNotFound(token)) => assert_eq!(token, "<unk>"),
        Err(other) => panic!("unexpected error: {:?}", other),
        Ok(_) => panic!("a vocabulary without unknown token was built"),
    }
}

#[test]
fn plain_map_last_of_two_entries_for_one_token_counts() {
    let bytes = br#"{"<s>": 0, "<pad>": 1, "</s>": 2, "<unk>": 3, "twice": 8, "twice": 9}"#;
    let vocab = M2M100Vocab::from_bytes(bytes).unwrap();
    assert_eq!(vocab.token_to_id("twice"), 9);
    assert_eq!(vocab.values().len(), 105);
}

#[test]
fn from_entries_builds_the_same_vocabulary() {
    let entries = vec![
        ("<s>".to_string(), 0),
        ("<pad>".to_string(), 1),
        ("</s>".to_string(), 2),
        ("<unk>".to_string(), 3),
        ("hello".to_string(), 4),
    ];
    let vocab = M2M100Vocab::from_entries(entries).unwrap();
    assert_eq!(vocab.values().len(), 105);
    assert_eq!(vocab.token_to_id("hello"), 4);
    assert_eq!(vocab.token_to_id(">>af.<<"), 5);
    assert_eq!(vocab.token_to_id(">>zu.<<"), 104);
    assert_eq!(vocab.token_to_id("nothing"), 3);
    assert_eq!(&vocab.values().tokens()[..5], &["<s>", "<pad>", "</s>", "<unk>", "hello"]);
}

#[test]
fn plain_map_marker_id_can_collide_with_an_id_of_the_artifact() {
    let bytes = br#"{"<s>": 0, "<pad>": 1, "</s>": 2, "<unk>": 3, "late": 5}"#;
    let vocab = M2M100Vocab::from_bytes(bytes).unwrap();
    assert_eq!(vocab.token_to_id("late"), 5);
    assert_eq!(vocab.token_to_id(">>af.<<"), 5);
    assert_eq!(vocab.id_to_token(&5), ">>af.<<");
    assert_eq!(vocab.values().len(), 105);
    assert_eq!(vocab.indices().len(), 104);
}
