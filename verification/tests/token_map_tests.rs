use vocab::base_vocab::{
    id_to_token, register_as_special_value, register_special_values, swap_key_values,
    synthesize_special_value, token_to_id,
};
use vocab::error::TokenizerError;
use vocab::token_map::TokenMap;

fn map_of(entries: &[(&str, i64)]) -> TokenMap {
    let mut map = TokenMap::new();
    for (token, id) in entries {
        map.insert(token.to_string(), *id);
    }
    map
}

#[test]
fn new_map_is_empty() {
    let map = TokenMap::new();
    assert_eq!(map.len(), 0);
    assert!(map.tokens().is_empty());
    assert_eq!(map.get("a"), None);
    assert!(!map.contains_key("a"));
}

#[test]
fn insert_appends_new_tokens_in_order() {
    let map = map_of(&[("b", 7), ("a", 3), ("c", 5)]);
    assert_eq!(map.len(), 3);
    assert_eq!(map.tokens(), &vec!["b".to_string(), "a".to_string(), "c".to_string()]);
    assert_eq!(map.get("b"), Some(7));
    assert_eq!(map.get("a"), Some(3));
    assert_eq!(map.get("c"), Some(5));
    assert!(map.contains_key("c"));
    assert!(!map.contains_key("d"));
}

#[test]
fn insert_of_known_token_keeps_place_and_takes_new_id() {
    let mut map = map_of(&[("b", 7), ("a", 3)]);
    map.insert("b".to_string(), 9);
    assert_eq!(map.len(), 2);
    assert_eq!(map.tokens(), &vec!["b".to_string(), "a".to_string()]);
    assert_eq!(map.get("b"), Some(9));
}

#[test]
fn from_entries_lets_the_last_entry_of_a_token_count() {
    let map = TokenMap::from_entries(vec![
        ("x".to_string(), 1),
        ("y".to_string(), 2),
        ("x".to_string(), 3),
    ]);
    assert_eq!(map.len(), 2);
    assert_eq!(map.tokens(), &vec!["x".to_string(), "y".to_string()]);
    assert_eq!(map.get("x"), Some(3));
    assert_eq!(map.get("y"), Some(2));
}

#[test]
fn swap_key_values_inverts_a_map_without_collisions() {
    let forward = map_of(&[("hello", 0), ("world", 1), ("<unk>", 2)]);
    let backward = swap_key_values(&forward);
    assert_eq!(backward.len(), 3);
    assert_eq!(backward.get(&0), Some(&"hello".to_string()));
    assert_eq!(backward.get(&1), Some(&"world".to_string()));
    assert_eq!(backward.get(&2), Some(&"<unk>".to_string()));
    assert_eq!(backward.get(&3), None);
}

#[test]
fn swap_key_values_of_empty_map_is_empty() {
    let backward = swap_key_values(&TokenMap::new());
    assert!(backward.is_empty());
}

#[test]
fn swap_key_values_keeps_the_later_of_two_tokens_with_one_id() {
    let forward = map_of(&[("first", 4), ("other", 1), ("second", 4)]);
    let backward = swap_key_values(&forward);
    assert_eq!(backward.len(), 2);
    assert_eq!(backward.get(&4), Some(&"second".to_string()));
    assert_eq!(backward.get(&1), Some(&"other".to_string()));
}

#[test]
fn register_copies_the_entry_of_a_known_token() {
    let values = map_of(&[("a", 10), ("<pad>", 11)]);
    let mut special = TokenMap::new();
    let outcome = register_as_special_value("<pad>", &values, &mut special);
    assert!(outcome.is_ok());
    assert_eq!(special.len(), 1);
    assert_eq!(special.get("<pad>"), Some(11));
}

#[test]
fn register_fails_on_a_missing_token_and_changes_nothing() {
    let values = map_of(&[("a", 10)]);
    let mut special = map_of(&[("a", 10)]);
    let outcome = register_as_special_value("<pad>", &values, &mut special);
    match outcome {
        Err(TokenizerError::TokenNotFound(token)) => assert_eq!(token, "<pad>"),
        other => panic!("unexpected outcome: {:?}", other),
    }
    assert_eq!(special.len(), 1);
    assert_eq!(special.get("a"), Some(10));
    assert_eq!(special.get("<pad>"), None);
}

#[test]
fn register_after_synthesis_cannot_miss() {
    let mut values = map_of(&[("a", 0)]);
    let next = values.len() as i64;
    values.insert("<extra>".to_string(), next);
    let mut special = TokenMap::new();
    assert!(register_as_special_value("<extra>", &values, &mut special).is_ok());
    assert_eq!(special.get("<extra>"), Some(1));
}

#[test]
fn register_special_values_registers_each_token_once() {
    let values = map_of(&[("<s>", 0), ("x", 1), ("</s>", 2)]);
    let special = register_special_values(&["</s>", "<s>", "</s>"], &values).unwrap();
    assert_eq!(special.len(), 2);
    assert_eq!(special.tokens(), &vec!["</s>".to_string(), "<s>".to_string()]);
    assert_eq!(special.get("</s>"), Some(2));
    assert_eq!(special.get("<s>"), Some(0));
    assert_eq!(special.get("x"), None);
}

#[test]
fn register_special_values_fails_with_the_first_missing_token() {
    let values = map_of(&[("<s>", 0)]);
    match register_special_values(&["<s>", "<one>", "<two>"], &values) {
        Err(TokenizerError::TokenNotFound(token)) => assert_eq!(token, "<one>"),
        Err(other) => panic!("unexpected error: {:?}", other),
        Ok(_) => panic!("a missing token was registered"),
    }
}

#[test]
fn token_to_id_prefers_reserved_then_full_then_unknown() {
    let values = map_of(&[("<unk>", 0), ("a", 1), ("<pad>", 2)]);
    let special = map_of(&[("<unk>", 0), ("<pad>", 2)]);
    assert_eq!(token_to_id("<pad>", &values, &special, "<unk>"), 2);
    assert_eq!(token_to_id("a", &values, &special, "<unk>"), 1);
    assert_eq!(token_to_id("zzz", &values, &special, "<unk>"), 0);
    assert_eq!(token_to_id("", &values, &special, "<unk>"), 0);
}

#[test]
fn id_to_token_prefers_reserved_then_full_then_unknown() {
    let values = map_of(&[("<unk>", 0), ("a", 1), ("<pad>", 2)]);
    let special = map_of(&[("<unk>", 0), ("<pad>", 2)]);
    let indices = swap_key_values(&values);
    let special_indices = swap_key_values(&special);
    assert_eq!(id_to_token(&2, &indices, &special_indices, "<unk>"), "<pad>");
    assert_eq!(id_to_token(&1, &indices, &special_indices, "<unk>"), "a");
    assert_eq!(id_to_token(&3, &indices, &special_indices, "<unk>"), "<unk>");
    assert_eq!(id_to_token(&-1, &indices, &special_indices, "<unk>"), "<unk>");
}

#[test]
fn file_not_found_names_path_and_cause() {
    match TokenizerError::file_not_found("dir/vocab.json", "No such file or directory") {
        TokenizerError::FileNotFound(report) => {
            assert_eq!(report, "dir/vocab.json vocabulary file not found :No such file or directory")
        },
        other => panic!("unexpected error: {:?}", other),
    }
}

#[test]
fn message_of_each_error() {
    assert_eq!(TokenizerError::FileNotFound("gone".to_string()).message(), "gone");
    assert_eq!(TokenizerError::VocabularyParsingError("bad".to_string()).message(), "bad");
    assert_eq!(
        TokenizerError::TokenNotFound("<pad>".to_string()).message(),
        "The special value <pad> could not be found in the vocabulary"
    );
    assert_eq!(
        TokenizerError::InvalidLanguageCode("abcd".to_string()).message(),
        "Language codes have length 2 or 3, which does not hold of abcd"
    );
}

#[test]
fn synthesize_special_value_adds_a_missing_token_under_the_next_id() {
    let mut values = map_of(&[("a", 0), ("b", 1)]);
    let mut special = TokenMap::new();
    synthesize_special_value("<mask>", &mut values, &mut special);
    assert_eq!(values.len(), 3);
    assert_eq!(values.get("<mask>"), Some(2));
    assert_eq!(values.tokens(), &vec!["a".to_string(), "b".to_string(), "<mask>".to_string()]);
    assert_eq!(special.len(), 1);
    assert_eq!(special.get("<mask>"), Some(2));
}

#[test]
fn synthesize_special_value_keeps_the_id_of_a_known_token() {
    let mut values = map_of(&[("<mask>", 7), ("b", 1)]);
    let mut special = TokenMap::new();
    synthesize_special_value("<mask>", &mut values, &mut special);
    assert_eq!(values.len(), 2);
    assert_eq!(values.get("<mask>"), Some(7));
    assert_eq!(special.get("<mask>"), Some(7));
}
