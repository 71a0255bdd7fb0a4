use featherkey::vocab::{Vocab, BOS, UNK};
use featherkey::vocab_codec::{decode, encode, encode_entries};

#[test]
fn intern_assigns_stable_indices_and_is_idempotent() {
    let mut v = Vocab::new();
    let a = v.intern("cat");
    assert_eq!(a, v.intern("cat"));
    assert!(a >= 2);
    assert_ne!(a, v.intern("dog"));
}

#[test]
fn oov_maps_to_unk_and_bos_pads() {
    let v = Vocab::new();
    assert_eq!(v.index_of("never-seen"), 0);
}

#[test]
fn sub_two_char_and_separator_tokens_are_never_interned() {
    let mut v = Vocab::new();
    assert_eq!(v.intern("a"), 0);
    assert_eq!(v.intern("bad\ttok"), 0);
}

#[test]
fn eviction_removes_least_frequent_deterministically() {
    let mut v = Vocab::with_capacity_for_test(2);
    let rare = v.intern("aaa");
    let common = v.intern("bbb");
    v.intern("bbb");
    let evicted = v.intern("ccc");
    assert_eq!(v.index_of("aaa"), 0);
    assert_eq!(evicted, rare);
    assert!(v.index_of("bbb") >= 2 && v.index_of("ccc") >= 2);
    let _ = common;
}

#[test]
fn reserved_indices_never_resolve_to_a_word() {
    let mut v = Vocab::new();
    v.intern("cat");
    assert_eq!(v.word_of(UNK), None);
    assert_eq!(v.word_of(BOS), None);
}

#[test]
fn indices_count_up_from_two_and_resolve_back() {
    let mut v = Vocab::new();
    assert!(v.is_empty());
    assert_eq!(v.intern("cat"), 2);
    assert_eq!(v.intern("dog"), 3);
    assert_eq!(v.intern("emu"), 4);
    assert_eq!(v.len(), 3);
    assert_eq!(v.word_of(3), Some("dog"));
    assert_eq!(v.word_of(5), None);
    assert_eq!(v.index_of("emu"), 4);
}

#[test]
fn eviction_ties_break_by_smallest_index() {
    let mut v = Vocab::with_capacity_for_test(2);
    assert_eq!(v.intern("aa"), 2);
    assert_eq!(v.intern("bb"), 3);
    assert_eq!(v.intern("cc"), 2);
    assert_eq!(v.index_of("aa"), UNK);
    assert_eq!(v.word_of(2), Some("cc"));
}

#[test]
fn entries_are_listed_in_ascending_word_order() {
    let mut v = Vocab::new();
    v.intern("zebra");
    v.intern("apple");
    v.intern("apple");
    assert_eq!(
        v.entries(),
        vec![("apple".to_string(), 3, 2), ("zebra".to_string(), 2, 1)]
    );
}

#[test]
fn empty_vocab_encodes_to_no_bytes_and_back() {
    let v = Vocab::new();
    let bytes = encode(&v);
    assert!(bytes.is_empty());
    assert_eq!(decode(&bytes).unwrap(), Vec::new());
}

#[test]
fn entries_round_trip_including_frequency() {
    let mut v = Vocab::new();
    v.intern("cat");
    v.intern("cat");
    v.intern("dog");
    let bytes = encode(&v);
    let mut decoded = decode(&bytes).unwrap();
    decoded.sort_by(|a, b| a.0.cmp(&b.0));
    let mut expected: Vec<(String, usize, u32)> = v.entries();
    expected.sort_by(|a, b| a.0.cmp(&b.0));
    assert_eq!(decoded, expected);
    let (_, _, cat_freq) = decoded.iter().find(|(w, ..)| w == "cat").unwrap();
    assert_eq!(*cat_freq, 2);
}

#[test]
fn decode_rejects_non_utf8() {
    assert!(decode(&[0xff]).is_none());
}

#[test]
fn decode_rejects_a_missing_field() {
    assert!(decode(b"2\t3").is_none());
}

#[test]
fn decode_rejects_a_trailing_field() {
    assert!(decode(b"2\t3\tcat\tx").is_none());
}

#[test]
fn decode_rejects_a_non_numeric_index_or_freq() {
    assert!(decode(b"NaN\t3\tcat").is_none());
    assert!(decode(b"2\tNaN\tcat").is_none());
}

#[test]
fn encoding_is_the_documented_line_format() {
    let mut v = Vocab::new();
    v.intern("dog");
    v.intern("cat");
    v.intern("cat");
    assert_eq!(encode(&v), b"3\t2\tcat\n2\t1\tdog".to_vec());
}

#[test]
fn encode_entries_writes_large_numbers_in_decimal() {
    let bytes = encode_entries(&[("hé".to_string(), 1234567, u32::MAX)]);
    assert_eq!(bytes, "1234567\t4294967295\thé".as_bytes().to_vec());
    assert_eq!(
        decode(&bytes),
        Some(vec![("hé".to_string(), 1234567, u32::MAX)])
    );
}

#[test]
fn decode_accepts_a_plus_sign_and_leading_zeros() {
    assert_eq!(
        decode(b"+02\t007\tcat"),
        Some(vec![("cat".to_string(), 2, 7)])
    );
}

#[test]
fn decode_rejects_out_of_range_and_malformed_numbers() {
    assert!(decode(b"2\t4294967296\tcat").is_none());
    assert!(decode(b"-2\t3\tcat").is_none());
    assert!(decode(b"+\t3\tcat").is_none());
    assert!(decode(b"\t3\tcat").is_none());
    assert!(decode(b"2\t3\t").is_none());
}

#[test]
fn decode_rejects_an_empty_line_between_entries() {
    assert!(decode(b"2\t1\tcat\n\n3\t1\tdog").is_none());
    assert!(decode(b"2\t1\tcat\n").is_none());
}

#[test]
fn decode_keeps_line_order() {
    assert_eq!(
        decode(b"3\t1\tdog\n2\t5\tcat"),
        Some(vec![("dog".to_string(), 3, 1), ("cat".to_string(), 2, 5)])
    );
}

#[test]
fn an_evicted_index_is_reused_and_resolves_to_the_new_word() {
    let mut v = Vocab::with_capacity_for_test(2);
    let a = v.intern("alpha");
    let _ = v.intern("beta");
    let _ = v.intern("beta");
    let g = v.intern("gamma");
    assert!(g >= 2);
    assert_eq!(g, a);
    assert_eq!(v.word_of(g), Some("gamma"));
    assert_eq!(v.index_of("gamma"), g);
    assert_eq!(v.index_of("alpha"), UNK);
    assert_eq!(v.word_of(UNK), None);
    assert_eq!(v.word_of(BOS), None);
}
