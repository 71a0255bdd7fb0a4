use featherkey::dictionary::{Dictionary, MAX_COMPLETIONS};
use featherkey::kernel::DictionaryError;

fn dict(words: &[&str]) -> Dictionary {
    Dictionary::from_sorted_words(words).expect("fixture is sorted")
}

fn lexicon() -> Dictionary {
    Dictionary::from_sorted_words(&["apple", "apply", "apt", "cat", "cot"]).expect("fixture is sorted")
}

fn generated(n: usize) -> Vec<String> {
    (0..n).map(|i| format!("x{i:03}")).collect()
}

#[test]
fn contains_finds_exact_words_and_rejects_others() {
    let d = dict(&["apple", "apply", "apt"]);
    assert!(d.contains("apple"));
    assert!(d.contains("apt"));
    assert!(!d.contains("app"));
    assert!(!d.contains("banana"));
    assert!(!d.contains(""));
}

#[test]
fn from_sorted_words_rejects_unsorted_input() {
    let err = Dictionary::from_sorted_words(&["b", "a"]);
    assert_eq!(err.err(), Some(DictionaryError::Unsorted));
}

#[test]
fn from_sorted_words_tolerates_adjacent_duplicates() {
    let d = Dictionary::from_sorted_words(&["a", "a", "b"]).expect("non-decreasing");
    assert!(d.contains("a"));
    assert!(d.contains("b"));
}

#[test]
fn empty_dictionary_is_valid_and_finds_nothing() {
    let d = dict(&[]);
    assert!(!d.contains("a"));
    assert!(d.prefix("a").is_empty());
    assert!(d.fuzzy("a").is_empty());
}

#[test]
fn prefix_returns_completions_in_order() {
    let d = dict(&["apple", "apply", "apt", "banana"]);
    assert_eq!(d.prefix("app"), ["apple", "apply"]);
    assert_eq!(d.prefix("ba"), ["banana"]);
}

#[test]
fn prefix_includes_the_prefix_when_it_is_a_word() {
    let d = dict(&["an", "and", "ant"]);
    assert_eq!(d.prefix("an"), ["an", "and", "ant"]);
}

#[test]
fn prefix_with_no_matches_is_empty() {
    let d = dict(&["cat", "dog"]);
    assert!(d.prefix("z").is_empty());
}

#[test]
fn empty_prefix_matches_every_word() {
    let d = dict(&["a", "b", "c"]);
    assert_eq!(d.prefix(""), ["a", "b", "c"]);
}

#[test]
fn prefix_is_capped_at_max_completions() {
    let owned = generated(MAX_COMPLETIONS + 5);
    let refs: Vec<&str> = owned.iter().map(String::as_str).collect();
    let d = Dictionary::from_sorted_words(&refs).expect("generated in order");
    let got = d.prefix("x");
    assert_eq!(got.len(), MAX_COMPLETIONS);
    assert_eq!(got[0], "x000");
}

#[test]
fn fuzzy_finds_each_edit_class() {
    let d = dict(&["at", "cast", "cat", "cats", "cot", "dog"]);
    let got = d.fuzzy("cat");
    assert!(got.contains(&"at".to_string()));
    assert!(got.contains(&"cot".to_string()));
    assert!(got.contains(&"cast".to_string()));
    assert!(got.contains(&"cats".to_string()));
    assert!(!got.contains(&"dog".to_string()));
}

#[test]
fn fuzzy_finds_a_transposition() {
    let d = dict(&["act", "cat"]);
    assert_eq!(d.fuzzy("cat"), ["act"]);
}

#[test]
fn fuzzy_excludes_the_exact_word_and_is_sorted_unique() {
    let d = dict(&["bat", "cat", "cot", "hat"]);
    let got = d.fuzzy("cat");
    assert!(!got.contains(&"cat".to_string()), "exact word excluded");
    let mut sorted = got.clone();
    sorted.sort();
    sorted.dedup();
    assert_eq!(got, sorted);
    assert_eq!(got, ["bat", "cot", "hat"]);
}

#[test]
fn fuzzy_never_returns_the_query_even_when_a_transposition_reproduces_it() {
    let d = dict(&["ee", "eve"]);
    let got = d.fuzzy("ee");
    assert!(!got.contains(&"ee".to_string()));
}

#[test]
fn fuzzy_with_no_neighbours_is_empty() {
    let d = dict(&["cat"]);
    assert!(d.fuzzy("zzzz").is_empty());
}

#[test]
fn dictionary_error_displays_a_human_message() {
    assert_eq!(
        DictionaryError::Unsorted.message(),
        "word list must be in non-decreasing (sorted) order"
    );
}

#[test]
fn fold_prefix_surfaces_accented_and_apostrophe_words() {
    let d = Dictionary::from_sorted_words(&["I've", "café", "don't", "he'll", "hello", "também", "você"])
        .expect("fixture is sorted");
    assert!(d.fold_prefix("ive").contains(&"I've".to_string()));
    assert!(d.fold_prefix("cafe").contains(&"café".to_string()));
    assert!(d.fold_prefix("hell").contains(&"he'll".to_string()));
    assert!(d.fold_prefix("dont").contains(&"don't".to_string()));
    assert!(d.fold_prefix("tambe").contains(&"também".to_string()));
    assert!(d.fold_prefix("voce").contains(&"você".to_string()));
}

#[test]
fn prefix_lookup_returns_completions_in_order() {
    let d = lexicon();
    let completions = d.prefix("app");
    assert_eq!(completions, ["apple", "apply"]);
    assert!(!completions.contains(&"apt".to_string()));
}

#[test]
fn completions_are_capped() {
    let words = generated(MAX_COMPLETIONS + 5);
    let refs: Vec<&str> = words.iter().map(String::as_str).collect();
    let d = Dictionary::from_sorted_words(&refs).expect("generated in order");
    assert_eq!(d.prefix("x").len(), MAX_COMPLETIONS);
}

#[test]
fn exact_word_is_present() {
    let d = lexicon();
    assert!(d.contains("apt"));
    assert!(!d.contains("ap"));
}

#[test]
fn one_edit_typo_surfaces_intended_words() {
    let d = lexicon();
    let matches = d.fuzzy("cet");
    assert_eq!(matches, ["cat", "cot"]);
    assert!(!matches.contains(&"cet".to_string()));
}

#[test]
fn out_of_order_construction_is_an_error_value() {
    let built = Dictionary::from_sorted_words(&["cot", "cat"]);
    assert_eq!(built.err(), Some(DictionaryError::Unsorted));
}

#[test]
fn fold_prefix_orders_by_folded_form_and_keeps_duplicates() {
    let d = Dictionary::from_sorted_words(&["Re", "re", "re", "rose", "ré"]).expect("sorted");
    assert_eq!(d.fold_prefix("re"), ["Re", "re", "re", "ré"]);
    assert_eq!(d.fold_prefix("ro"), ["rose"]);
    assert!(d.fold_prefix("z").is_empty());
    assert_eq!(d.fold_prefix("").len(), 5);
}

#[test]
fn fold_prefix_is_capped_at_max_completions() {
    let words = generated(MAX_COMPLETIONS + 3);
    let refs: Vec<&str> = words.iter().map(String::as_str).collect();
    let d = Dictionary::from_sorted_words(&refs).expect("sorted");
    let got = d.fold_prefix("x0");
    assert_eq!(got.len(), MAX_COMPLETIONS);
    assert_eq!(got[MAX_COMPLETIONS - 1], "x015");
}

#[test]
fn prefix_matches_by_bytes_not_by_folding() {
    let d = dict(&["cafe", "café", "cafés"]);
    assert_eq!(d.prefix("café"), ["café", "cafés"]);
    assert!(d.fold_prefix("cafe").contains(&"cafés".to_string()));
}

#[test]
fn fuzzy_handles_multibyte_letters() {
    let d = dict(&["gato", "gató", "pato"]);
    assert_eq!(d.fuzzy("gato"), ["gató", "pato"]);
    assert_eq!(d.fuzzy("gatos"), ["gato"]);
}
