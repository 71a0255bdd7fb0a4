use featherkey::correction::{gated_correction, no_clobber_correct, ranked_neighbours, Correction};
use featherkey::counts::WordCounts;
use featherkey::dictionary::Dictionary;
use featherkey::lexicon_packs::{
    accent_variant_hits, build_gesture_index, is_live_prefix, ranked_completions, scoped_learned_snapshots, LexiconPack,
};
use featherkey::candidates::{
    available_correction, distinct_alternatives, gather_candidates, sticky_fix, AvailableCorrection, Candidate, Source,
};
use featherkey::ffi_types::{FfiRankCandidate, FfiSource};
use featherkey::strip::{dedup_cap, guarantee_fold_variant};

fn dict(words: &[&str]) -> Dictionary {
    Dictionary::from_sorted_words(words).expect("fixture is sorted")
}

fn ranks(pairs: &[(&str, u32)]) -> WordCounts {
    let mut r = WordCounts::new();
    for (w, c) in pairs {
        r.set(w.to_string(), *c);
    }
    r
}

fn pack(lang: &str, words: &[&str], rank: &[(&str, u32)]) -> LexiconPack {
    LexiconPack { lang: lang.to_string(), dict: dict(words), rank: ranks(rank) }
}

#[test]
fn a_dictionary_word_is_never_clobbered() {
    let d = dict(&["cat", "cot", "hat"]);
    let got = no_clobber_correct(&d, "cat", false, false);
    assert_eq!(got, Correction { primary: "cat".to_string(), alternatives: vec![], applied: false, withheld: None });
}

#[test]
fn a_capitalized_valid_word_is_not_clobbered() {
    let d = dict(&["cat", "cot", "cut"]);
    let got = no_clobber_correct(&d, "Cat", false, false);
    assert_eq!(got.primary, "Cat");
    assert!(!got.applied);
    assert!(got.alternatives.is_empty());
}

#[test]
fn a_known_or_recognized_word_is_never_clobbered() {
    let d = dict(&["acne", "acre"]);
    assert!(!no_clobber_correct(&d, "acme", true, false).applied);
    assert!(!no_clobber_correct(&d, "acme", false, true).applied);
    assert_eq!(no_clobber_correct(&d, "acme", false, true).primary, "acme");
}

#[test]
fn a_non_word_is_corrected_to_its_first_neighbour_with_the_rest_as_alternatives() {
    let d = dict(&["bat", "cat", "cot"]);
    let got = no_clobber_correct(&d, "cet", false, false);
    assert_eq!(
        got,
        Correction { primary: "cat".to_string(), alternatives: vec!["cot".to_string()], applied: true, withheld: None }
    );
}

#[test]
fn a_non_word_with_no_neighbours_or_an_empty_token_is_left_unchanged() {
    let d = dict(&["cat"]);
    assert_eq!(
        no_clobber_correct(&d, "zzzz", false, false),
        Correction { primary: "zzzz".to_string(), alternatives: vec![], applied: false, withheld: None }
    );
    assert!(!no_clobber_correct(&d, "", false, false).applied);
}

#[test]
fn neighbours_come_commonest_first_and_unranked_last() {
    let d = dict(&["bat", "cot", "hat", "mat"]);
    let r = ranks(&[("hat", 5), ("cot", 2), ("mat", 5)]);
    assert_eq!(ranked_neighbours(&d, &r, "cat"), ["cot", "hat", "mat", "bat"]);
}

#[test]
fn completions_merge_packs_by_rank_then_word() {
    let en = pack("en", &["cafe", "cat", "cot"], &[("cat", 1), ("cafe", 7)]);
    let pt = pack("pt", &["caf\u{e9}", "cat"], &[("caf\u{e9}", 0), ("cat", 9)]);
    let packs = [en, pt];
    assert_eq!(ranked_completions(&packs, "ca", 10), ["café", "cat", "cafe"]);
    assert_eq!(ranked_completions(&packs, "CA", 2), ["café", "cat"]);
    assert_eq!(ranked_completions(&packs, "co", 10), ["cot"]);
    assert!(ranked_completions(&packs, "zz", 10).is_empty());
}

#[test]
fn accent_variants_keep_the_exact_fold_group_commonest_first() {
    let en = pack("en", &["I've", "he'll", "hell", "hello", "ive"], &[("he'll", 4), ("hell", 2), ("I've", 1)]);
    let pt = pack("pt", &["voce", "voc\u{ea}"], &[("voc\u{ea}", 3)]);
    let packs = [en, pt];
    assert_eq!(
        accent_variant_hits(&packs, "hell"),
        vec![("he'll".to_string(), "en".to_string(), 4)]
    );
    assert_eq!(
        accent_variant_hits(&packs, "ive"),
        vec![("I've".to_string(), "en".to_string(), 1)]
    );
    assert_eq!(
        accent_variant_hits(&packs, "voce"),
        vec![("você".to_string(), "pt".to_string(), 3)]
    );
    assert!(accent_variant_hits(&packs, "hello").is_empty());
}

#[test]
fn accent_variants_with_equal_ranks_keep_gathering_order() {
    let a = pack("en", &["resume", "r\u{e9}sum\u{e9}"], &[]);
    let b = pack("fr", &["resum\u{e9}", "r\u{e9}sum\u{e9}"], &[]);
    let packs = [a, b];
    assert_eq!(
        accent_variant_hits(&packs, "resume"),
        vec![
            ("résumé".to_string(), "en".to_string(), u32::MAX),
            ("resumé".to_string(), "fr".to_string(), u32::MAX),
        ]
    );
}

#[test]
fn the_gesture_index_keeps_each_words_best_rank() {
    let en = pack("en", &["cat", "dog"], &[("cat", 3), ("dog", 1)]);
    let fr = pack("fr", &["cat", "chat"], &[("cat", 0), ("chat", 4)]);
    let (index, rank) = build_gesture_index(&[en, fr]);
    assert_eq!(rank.get("cat"), Some(&0));
    assert_eq!(rank.get("dog"), Some(&1));
    assert_eq!(rank.get("chat"), Some(&4));
    assert_eq!(index.words_for_first('c'), vec!["cat".to_string(), "chat".to_string()]);
    assert_eq!(index.last_key_of("dog"), Some('g'));
}


fn cand(word: &str, lang: &str, source: Source, source_rank: u32) -> Candidate {
    Candidate { word: word.to_string(), lang: lang.to_string(), source, source_rank }
}

#[test]
fn ffi_candidate_converts_to_contract_candidate() {
    let c: Candidate = FfiRankCandidate {
        word: "hola".into(),
        lang: "es".into(),
        source: FfiSource::Device,
        source_rank: 2,
    }
    .into();
    assert_eq!(c.word, "hola");
    assert_eq!(c.lang, "es");
    assert_eq!(c.source, Source::Device);
    assert_eq!(c.source_rank, 2);
}

#[test]
fn candidates_are_ranked_per_language_then_followed_by_the_device() {
    let en = pack("en", &["cat", "cot"], &[("cot", 0), ("cat", 1)]);
    let es = pack("es", &["cita", "cut"], &[("cut", 3)]);
    let device = vec![cand("cyt", "en", Source::Device, 0)];
    let got = gather_candidates(&[en, es], "cit", device);
    assert_eq!(
        got,
        vec![
            cand("cot", "en", Source::Lexicon, 0),
            cand("cat", "en", Source::Lexicon, 1),
            cand("cut", "es", Source::Lexicon, 0),
            cand("cita", "es", Source::Lexicon, 1),
            cand("cyt", "en", Source::Device, 0),
        ]
    );
}

#[test]
fn the_sticky_fix_prefers_the_primary_languages_commonest_neighbour() {
    let cands = vec![
        cand("cyt", "en", Source::Device, 0),
        cand("cot", "es", Source::Lexicon, 0),
        cand("cat", "en", Source::Lexicon, 1),
        cand("cut", "en", Source::Lexicon, 0),
    ];
    assert_eq!(sticky_fix(&cands, Some("en")), Some(3));
    assert_eq!(sticky_fix(&cands, Some("fr")), Some(1));
    assert_eq!(sticky_fix(&cands, None), Some(1));
    assert_eq!(sticky_fix(&cands[..1], Some("en")), None);
}

#[test]
fn alternatives_are_distinct_and_never_echo_the_winner() {
    let cands = vec![
        cand("cat", "en", Source::Lexicon, 0),
        cand("cot", "en", Source::Lexicon, 1),
        cand("cot", "es", Source::Lexicon, 0),
        cand("cat", "es", Source::Lexicon, 1),
        cand("cut", "en", Source::Lexicon, 2),
        cand("cit", "en", Source::Lexicon, 3),
    ];
    assert_eq!(distinct_alternatives(&[0, 1, 2, 3, 4, 5], &cands, "cat"), ["cot", "cut"]);
    assert_eq!(distinct_alternatives(&[0, 3, 2], &cands, "cat"), ["cot"]);
    assert!(distinct_alternatives(&[0], &cands, "cat").is_empty());
    assert!(distinct_alternatives(&[], &cands, "cat").is_empty());
}

#[test]
fn a_prefix_is_live_when_some_pack_completes_it() {
    let en = pack("en", &["cat"], &[]);
    let pt = pack("pt", &["voc\u{ea}"], &[]);
    let packs = [en, pt];
    assert!(is_live_prefix(&packs, "Vo"));
    assert!(is_live_prefix(&packs, "ca"));
    assert!(!is_live_prefix(&packs, "dog"));
    assert!(!is_live_prefix(&[], "ca"));
}

#[test]
fn scoped_snapshots_cover_only_the_prefix_completions() {
    let packs = vec![
        pack("en", &["cafe", "car", "dog"], &[("cafe", 40), ("car", 7), ("dog", 3)]),
        pack("pt", &["café", "carro"], &[("café", 2), ("car", 9)]),
    ];
    let learned = ranks(&[("car", 5), ("carro", 0), ("dog", 8), ("café", 1)]);
    let (freq, rank) = scoped_learned_snapshots(&packs, &learned, "Ca");
    assert_eq!(
        freq.pairs(),
        vec![("café".to_string(), 1), ("car".to_string(), 5)]
    );
    assert_eq!(
        rank.pairs(),
        vec![("cafe".to_string(), 40), ("café".to_string(), 2), ("car".to_string(), 7)]
    );
}

#[test]
fn scoped_snapshots_are_empty_for_an_empty_prefix() {
    let packs = vec![pack("en", &["car"], &[("car", 1)])];
    let learned = ranks(&[("car", 5)]);
    let (freq, rank) = scoped_learned_snapshots(&packs, &learned, "");
    assert!(freq.is_empty());
    assert!(rank.is_empty());
}

/// A pack whose bundled ranks are the words' positions in `by_frequency`.
fn ordered_pack(lang: &str, by_frequency: &[&str]) -> LexiconPack {
    let mut sorted: Vec<&str> = by_frequency.to_vec();
    sorted.sort();
    let mut rank = WordCounts::new();
    for (i, w) in by_frequency.iter().enumerate() {
        rank.set(w.to_string(), i as u32);
    }
    LexiconPack { lang: lang.to_string(), dict: dict(&sorted), rank }
}

fn variant_words(packs: &[LexiconPack], prefix: &str) -> Vec<String> {
    accent_variant_hits(packs, prefix).into_iter().map(|(w, _, _)| w).collect()
}

#[test]
fn accent_variants_are_the_exact_fold_group_minus_the_typed_word() {
    let packs = vec![ordered_pack("en", &["hell", "hello", "he'll"])];
    assert_eq!(variant_words(&packs, "hell"), vec!["he'll".to_string()]);
}

#[test]
fn accent_variants_rank_by_minimum_across_all_active_packs() {
    let packs = vec![
        ordered_pack("en", &["the", "cafè", "café"]),
        ordered_pack("es", &["café", "and"]),
    ];
    assert_eq!(variant_words(&packs, "cafe"), vec!["café".to_string(), "cafè".to_string()]);
}

fn entry(word: &str, lang: &str, score: f64) -> (String, (String, f64)) {
    (word.to_string(), (lang.to_string(), score))
}

fn words_of(ranked: &[(String, (String, f64))]) -> Vec<&str> {
    ranked.iter().map(|r| r.0.as_str()).collect()
}

#[test]
fn guarantee_fold_variant_inserts_an_unshown_variant_at_slot_two() {
    let packs = vec![ordered_pack("en", &["hell", "he'll"])];
    let ranked = vec![entry("hell", "en", 0.0)];
    let variants: Vec<(String, (String, f64))> = accent_variant_hits(&packs, "hell")
        .into_iter()
        .map(|(w, lang, _)| entry(&w, &lang, 0.0))
        .collect();
    let out = guarantee_fold_variant("hell", ranked, variants, 3);
    assert_eq!(words_of(&out), ["hell", "he'll"]);
}

#[test]
fn a_variant_already_shown_up_to_case_is_not_added_again() {
    let ranked = vec![entry("Hell", "en", 2.0), entry("He'll", "en", 1.0), entry("hello", "en", 0.5)];
    let variants = vec![entry("he'll", "en", 0.0)];
    let out = guarantee_fold_variant("hell", ranked, variants, 3);
    assert_eq!(words_of(&out), ["Hell", "He'll", "hello"]);
}

#[test]
fn the_first_unshown_variant_takes_the_second_slot_even_past_the_cap() {
    let ranked = vec![entry("a", "en", 3.0), entry("b", "en", 2.0), entry("c", "en", 1.0)];
    let variants = vec![entry("B", "en", 0.0), entry("d", "en", 0.0), entry("e", "en", 0.0)];
    let out = guarantee_fold_variant("x", ranked, variants, 3);
    assert_eq!(words_of(&out), ["a", "d", "b"]);
    assert_eq!(out[1].1 .0, "en");
}

#[test]
fn an_empty_prefix_gets_no_variant_and_an_empty_strip_takes_it_first() {
    let variants = vec![entry("he'll", "en", 0.0)];
    let out = guarantee_fold_variant("", vec![entry("hell", "en", 1.0)], variants.clone(), 3);
    assert_eq!(words_of(&out), ["hell"]);
    let out = guarantee_fold_variant("hel", vec![], variants, 3);
    assert_eq!(words_of(&out), ["he'll"]);
}

#[test]
fn dedup_cap_keeps_first_spelling_up_to_case_and_caps() {
    let ranked = vec![
        entry("The", "en", 3.0),
        entry("the", "en", 2.0),
        entry("then", "en", 1.5),
        entry("THEN", "en", 1.0),
        entry("they", "en", 0.5),
    ];
    let out = dedup_cap(ranked.clone(), 2);
    assert_eq!(words_of(&out), ["The", "then"]);
    assert_eq!(out[0].1 .1, 3.0);
    let out = dedup_cap(ranked, 10);
    assert_eq!(words_of(&out), ["The", "then", "they"]);
}

#[test]
fn available_correction_reports_distance_and_own_language_rank() {
    let packs = vec![
        ordered_pack("en", &["the", "cat", "cot"]),
        ordered_pack("es", &["cat", "gato"]),
        ordered_pack("en", &["cat"]),
    ];
    let got = available_correction(&packs, "cst", "cat", "es".to_string(), 1.25f64);
    assert_eq!(
        got,
        AvailableCorrection {
            winner: "cat".to_string(),
            winner_confidence: 1.25,
            edit_distance: 1,
            winner_lang: "es".to_string(),
            winner_dict_rank: Some(0),
        }
    );
    // The first pack of the language answers, even when a later one ranks it better.
    assert_eq!(available_correction(&packs, "cst", "cat", "en".to_string(), 0.0f64).winner_dict_rank, Some(1));
    // No pack of that language, or a word its pack does not rank.
    assert_eq!(available_correction(&packs, "cst", "cat", "fr".to_string(), 0.0f64).winner_dict_rank, None);
    assert_eq!(available_correction(&packs, "gatto", "gato", "en".to_string(), 0.0f64).winner_dict_rank, None);
    assert_eq!(available_correction(&packs, "", "gato", "es".to_string(), 0.0f64).edit_distance, 4);
}

#[test]
fn a_gated_correction_applies_or_withholds_the_winner() {
    let d = dict(&["bat", "cat", "cot"]);
    let outcome = no_clobber_correct(&d, "cet", false, false);
    let applied = gated_correction("cet", outcome.clone(), Some("cat".to_string()), true);
    assert_eq!(
        applied,
        Correction { primary: "cat".to_string(), alternatives: vec!["cot".to_string()], applied: true, withheld: None }
    );
    let withheld = gated_correction("cet", outcome.clone(), Some("cat".to_string()), false);
    assert_eq!(
        withheld,
        Correction { primary: "cet".to_string(), alternatives: vec![], applied: false, withheld: Some("cat".to_string()) }
    );
    let vetoed = no_clobber_correct(&d, "cat", false, false);
    assert_eq!(gated_correction("cat", vetoed.clone(), None, false), vetoed);
}
