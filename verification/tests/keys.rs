use featherkey::fold::{fold, fold_char};
use featherkey::gesture_index::{key_path, GestureIndex};
use std::collections::HashSet;

fn has_letter_key(c: char) -> bool {
    c.is_ascii_lowercase()
}

#[test]
fn fold_matches_kotlin_diacritics() {
    assert_eq!(fold("também"), "tambem");
    assert_eq!(fold("café"), "cafe");
    assert_eq!(fold("I'm"), "im");
    assert_eq!(fold("don't"), "dont");
    assert_eq!(fold("don’t"), "dont");
    assert_eq!(fold("HELLO"), "hello");
    assert_eq!(fold("hello"), "hello");
    assert_eq!(fold(""), "");
}

#[test]
fn fold_char_folds_accents_but_keeps_apostrophe_semantics() {
    assert_eq!(fold_char('É'), 'e');
    assert_eq!(fold_char('ç'), 'c');
    assert_eq!(fold_char('A'), 'a');
    assert_eq!(fold_char('\''), '\'');
}

#[test]
fn fold_output_carries_no_apostrophe_or_mark() {
    for s in ["Ünïcödé", "l'été", "Straße", "ÅNGSTRÖM", "e\u{301}"] {
        let folded = fold(s);
        assert_eq!(folded, folded.to_lowercase());
        assert!(!folded.contains('\'') && !folded.contains('\u{2019}'));
        assert!(!folded.chars().any(unicode_normalization::char::is_combining_mark));
    }
}

#[test]
fn apostrophe_words_path_through_their_letters_only() {
    assert_eq!(key_path("I've", has_letter_key), vec!['i', 'v', 'e']);
    assert_eq!(key_path("don't", has_letter_key), vec!['d', 'o', 'n', 't']);
    assert_eq!(key_path("he'll", has_letter_key), vec!['h', 'e', 'l', 'l']);
}

#[test]
fn accented_words_fold_to_their_base_keys() {
    assert_eq!(key_path("café", has_letter_key), vec!['c', 'a', 'f', 'e']);
    assert_eq!(key_path("você", has_letter_key), vec!['v', 'o', 'c', 'e']);
    assert_eq!(
        key_path("também", has_letter_key),
        vec!['t', 'a', 'm', 'b', 'e', 'm']
    );
}

#[test]
fn accents_and_apostrophes_are_dropped_together() {
    assert_eq!(key_path("c'est", has_letter_key), vec!['c', 'e', 's', 't']);
}

#[test]
fn a_trailing_apostrophe_does_not_become_the_last_key() {
    let keys = key_path("goin'", has_letter_key);
    assert_eq!(keys.last(), Some(&'n'));
    assert_eq!(keys, vec!['g', 'o', 'i', 'n']);
}

#[test]
fn a_plain_word_is_unchanged() {
    assert_eq!(
        key_path("hello", has_letter_key),
        vec!['h', 'e', 'l', 'l', 'o']
    );
}

#[test]
fn index_buckets_words_by_their_first_key() {
    let idx = GestureIndex::build(&["cat", "car", "dog", "café"]);
    assert_eq!(
        idx.words_for_first('c').into_iter().collect::<HashSet<_>>(),
        ["cat", "car", "café"]
            .iter()
            .map(|s| s.to_string())
            .collect()
    );
    assert_eq!(idx.words_for_first('d'), vec!["dog".to_string()]);
    assert!(idx.words_for_first('z').is_empty());
}

#[test]
fn index_keys_by_folded_first_letter_not_the_raw_character() {
    let idx = GestureIndex::build(&["über"]);
    assert_eq!(idx.words_for_first('u'), vec!["über".to_string()]);
    assert!(idx.words_for_first('ü').is_empty());
}

#[test]
fn index_records_the_last_typeable_key_dropping_a_trailing_apostrophe() {
    let idx = GestureIndex::build(&["goin'"]);
    assert_eq!(idx.last_key_of("goin'"), Some('n'));
}

#[test]
fn index_skips_words_with_fewer_than_two_typeable_keys() {
    let idx = GestureIndex::build(&["a", "I", "hi"]);
    assert!(idx.words_for_first('a').is_empty());
    assert_eq!(idx.words_for_first('h'), vec!["hi".to_string()]);
}

#[test]
fn an_empty_index_reports_empty_and_buckets_keep_input_order() {
    assert!(GestureIndex::build(&[]).is_empty());
    assert!(GestureIndex::build(&["x", "'"]).is_empty());
    let idx = GestureIndex::build(&["tea", "tab", "tó"]);
    assert!(!idx.is_empty());
    assert_eq!(
        idx.words_for_first('t'),
        vec!["tea".to_string(), "tab".to_string(), "tó".to_string()]
    );
    let b = idx.bucket('t');
    assert_eq!(b.len(), 3);
    assert_eq!((b[2].word(), b[2].last()), ("tó", 'o'));
    assert_eq!(idx.last_key_of("nope"), None);
}
