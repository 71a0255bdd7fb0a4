use featherkey::context::{is_learnable, Context, MIN_TOKEN_CHARS};
use featherkey::corrections::Corrections;
use featherkey::recent::RecentWords;

#[test]
fn records_and_ranks_next_words() {
    let mut c = Context::new();
    c.record("the", "cat");
    c.record("the", "cat");
    c.record("the", "dog");
    assert_eq!(
        c.next_words("the", 2),
        vec!["cat".to_string(), "dog".to_string()]
    );
    assert_eq!(c.next_counts("the").get("cat"), Some(&2));
}

#[test]
fn skips_short_tokens() {
    let mut c = Context::new();
    c.record("a", "cat");
    c.record("the", "x");
    assert!(c.next_words("the", 3).is_empty());
    assert!(c.next_counts("a").is_empty());
}

#[test]
fn counts_saturate_at_u32_max() {
    let mut c = Context::new();
    c.import(vec![("aa".to_string(), "bb".to_string(), u32::MAX)]);
    c.record("aa", "bb");
    assert_eq!(c.next_counts("aa").get("bb"), Some(&u32::MAX));
}

#[test]
fn ties_break_by_ascending_word() {
    let mut c = Context::new();
    c.record("go", "north");
    c.record("go", "east");
    assert_eq!(
        c.next_words("go", 2),
        vec!["east".to_string(), "north".to_string()]
    );
}

#[test]
fn import_sets_counts_and_skips_unstorable() {
    let mut c = Context::new();
    c.import(vec![
        ("hi".to_string(), "there".to_string(), 3),
        ("hi".to_string(), "there".to_string(), 2),
        ("bad\tprev".to_string(), "ok".to_string(), 9),
    ]);
    assert_eq!(c.next_counts("hi").get("there"), Some(&2));
    assert!(c.next_counts("bad\tprev").is_empty());
}

#[test]
fn import_is_idempotent_when_re_run() {
    let rows = || {
        vec![
            ("the".to_string(), "cat".to_string(), 7),
            ("go".to_string(), "north".to_string(), 4),
        ]
    };
    let mut once = Context::new();
    once.import(rows());
    let mut twice = Context::new();
    twice.import(rows());
    twice.import(rows());
    assert_eq!(once, twice);
    assert_eq!(twice.next_counts("the").get("cat"), Some(&7));
}

#[test]
fn unknown_prev_yields_empty() {
    let c = Context::new();
    assert!(c.next_words("nope", 5).is_empty());
    assert!(c.next_counts("nope").is_empty());
    assert!(c.is_empty());
}

#[test]
fn learnable_predicate_is_public_and_matches_record_rules() {
    assert!(is_learnable("cat"));
    assert!(!is_learnable("a"));
    assert!(!is_learnable("bad\ttok"));
    assert_eq!(MIN_TOKEN_CHARS, 2);
}

#[test]
fn next_words_respects_the_limit_and_orders_by_count() {
    let mut c = Context::new();
    for _ in 0..3 {
        c.record("we", "are");
    }
    c.record("we", "can");
    c.record("we", "will");
    c.record("we", "will");
    assert_eq!(
        c.next_words("we", 2),
        vec!["are".to_string(), "will".to_string()]
    );
    assert_eq!(c.next_words("we", 0), Vec::<String>::new());
    assert_eq!(c.next_counts("we").get("can"), Some(&1));
}

#[test]
fn recording_a_separator_token_learns_nothing() {
    let mut c = Context::new();
    c.record("the", "ca\nt");
    c.record("th\te", "cat");
    assert!(c.is_empty());
}

#[test]
fn new_model_knows_nothing() {
    let c = Corrections::new();
    assert_eq!(c.pref_count("teh", "teh"), 0);
    assert_eq!(c.unwanted_count("ducking"), 0);
    assert_eq!(c, Corrections::default());
}

#[test]
fn records_strip_pick_prefs_and_unwanted() {
    let mut c = Corrections::new();
    c.note_pick("teh", "teh");
    c.note_pick("teh", "teh");
    c.note_unwanted("ducking");
    assert_eq!(c.pref_count("teh", "teh"), 2);
    assert_eq!(c.pref_count("teh", "other"), 0);
    assert_eq!(c.unwanted_count("ducking"), 1);
}

#[test]
fn distinct_prefixes_and_picks_are_counted_independently() {
    let mut c = Corrections::new();
    c.note_pick("te", "the");
    c.note_pick("te", "teh");
    c.note_pick("te", "teh");
    c.note_pick("ca", "cat");
    assert_eq!(c.pref_count("te", "the"), 1);
    assert_eq!(c.pref_count("te", "teh"), 2);
    assert_eq!(c.pref_count("ca", "cat"), 1);
    assert_eq!(c.pref_count("ca", "the"), 0);
}

#[test]
fn note_pick_ignores_empty_or_separator_bearing_tokens() {
    let mut c = Corrections::new();
    c.note_pick("", "the");
    c.note_pick("te", "");
    c.note_pick("a\tb", "the");
    c.note_pick("te", "a\nb");
    assert_eq!(c.pref_count("", "the"), 0);
    assert_eq!(c.pref_count("te", ""), 0);
    assert_eq!(c.pref_count("a\tb", "the"), 0);
    assert_eq!(c.pref_count("te", "a\nb"), 0);
    c.note_pick("te", "the");
    assert_eq!(c.pref_count("te", "the"), 1);
}

#[test]
fn note_unwanted_ignores_empty_or_separator_bearing_words() {
    let mut c = Corrections::new();
    c.note_unwanted("");
    c.note_unwanted("a\tb");
    c.note_unwanted("a\nb");
    assert_eq!(c.unwanted_count(""), 0);
    assert_eq!(c.unwanted_count("a\tb"), 0);
    c.note_unwanted("ok");
    assert_eq!(c.unwanted_count("ok"), 1);
}

#[test]
fn import_prefs_sets_counts_idempotently() {
    let mut c = Corrections::new();
    let entries = [
        ("te".to_owned(), "teh".to_owned(), 5),
        ("ca".to_owned(), "cat".to_owned(), 2),
    ];
    c.import_prefs(entries.to_vec());
    assert_eq!(c.pref_count("te", "teh"), 5);
    assert_eq!(c.pref_count("ca", "cat"), 2);
    c.import_prefs(entries.to_vec());
    assert_eq!(c.pref_count("te", "teh"), 5);
}

#[test]
fn import_unwanted_sets_counts_idempotently() {
    let mut c = Corrections::new();
    c.import_unwanted(vec![("ducking".to_owned(), 4)]);
    assert_eq!(c.unwanted_count("ducking"), 4);
    c.import_unwanted(vec![("ducking".to_owned(), 4)]);
    assert_eq!(c.unwanted_count("ducking"), 4);
}

#[test]
fn import_skips_zero_counts_and_bad_tokens() {
    let mut c = Corrections::new();
    c.import_prefs(vec![
        ("te".to_owned(), "teh".to_owned(), 0),
        ("".to_owned(), "x".to_owned(), 3),
        ("a\tb".to_owned(), "y".to_owned(), 3),
    ]);
    c.import_unwanted(vec![("z".to_owned(), 0), ("a\nb".to_owned(), 3)]);
    assert_eq!(c.pref_count("te", "teh"), 0);
    assert_eq!(c.unwanted_count("z"), 0);
    assert_eq!(c, Corrections::new());
}

#[test]
fn importing_twice_equals_importing_once() {
    let rows = vec![
        ("te".to_owned(), "teh".to_owned(), 3),
        ("te".to_owned(), "teh".to_owned(), 9),
        ("ca".to_owned(), "cat".to_owned(), 1),
    ];
    let mut once = Corrections::new();
    once.import_prefs(rows.clone());
    once.import_unwanted(vec![("ducking".to_owned(), 2)]);
    let mut twice = once.clone();
    twice.import_prefs(rows);
    twice.import_unwanted(vec![("ducking".to_owned(), 2)]);
    assert_eq!(once, twice);
    assert_eq!(twice.pref_count("te", "teh"), 9);
}

#[test]
fn two_word_context_returns_older_and_preceding_when_coherent() {
    let mut r = RecentWords::new();
    r.push("going");
    r.push("to");
    assert_eq!(
        r.two_word_context("to"),
        vec!["going".to_string(), "to".to_string()]
    );
}

#[test]
fn a_mismatched_preceding_degrades_to_one_word() {
    let mut r = RecentWords::new();
    r.push("going");
    r.push("to");
    assert_eq!(
        r.two_word_context("elsewhere"),
        vec!["elsewhere".to_string()]
    );
}

#[test]
fn empty_preceding_is_a_boundary() {
    let mut r = RecentWords::new();
    r.push("hi");
    assert!(r.two_word_context("").is_empty());
}

#[test]
fn push_advances_the_window() {
    let mut r = RecentWords::new();
    r.push("a");
    r.push("b");
    r.push("c");
    assert_eq!(
        r.two_word_context("c"),
        vec!["b".to_string(), "c".to_string()]
    );
}

#[test]
fn a_single_pushed_word_gives_one_word_context() {
    let mut r = RecentWords::default();
    r.push("hello");
    assert_eq!(r.two_word_context("hello"), vec!["hello".to_string()]);
}
