use featherkey::diagnostics::{Clock, DiagnosticCode, DiagnosticEvent, Diagnostics};
use featherkey::edit_distance::edit_distance;
use featherkey::ffi_types::{map_latin, AutocorrectOutcome, FeatherKeyError, FfiAutocorrectOutcome, FfiError, FfiLatinLayout};
use featherkey::kernel::{CoreError, DiagnosticsError, Direction, GuardError, KeyId};
use featherkey::layouts::{alpha_page_for, AlphaPage, LatinLayout};
use featherkey::propercase::is_title_case;
use std::cell::Cell;

#[derive(Debug)]
struct AdvancingClock(Cell<u64>);

impl AdvancingClock {
    fn starting_at(t: u64) -> Self {
        Self(Cell::new(t))
    }
}

impl Clock for AdvancingClock {
    fn now_millis(&self) -> u64 {
        let t = self.0.get();
        self.0.set(t + 1);
        t
    }
}

#[derive(Debug)]
struct FixedClock(u64);

impl Clock for FixedClock {
    fn now_millis(&self) -> u64 {
        self.0
    }
}

fn codes<C: Clock>(d: &Diagnostics<C>) -> Vec<DiagnosticCode> {
    d.snapshot().iter().map(|e| e.code()).collect()
}

fn page_chars(p: AlphaPage) -> Vec<char> {
    let (a, b, c) = p.rows();
    a.chars().chain(b.chars()).chain(c.chars()).collect()
}

#[test]
fn zero_capacity_is_an_error_not_a_panic() {
    let err = Diagnostics::new(0, FixedClock(0));
    assert_eq!(err.err(), Some(DiagnosticsError::ZeroCapacity));
}

#[test]
fn error_displays_human_message() {
    assert_eq!(
        DiagnosticsError::ZeroCapacity.message(),
        "diagnostics capacity must be non-zero"
    );
}

#[test]
fn fresh_buffer_is_empty() {
    let d = Diagnostics::new(3, FixedClock(0)).unwrap();
    assert!(d.is_empty());
    assert_eq!(d.len(), 0);
    assert_eq!(d.capacity(), 3);
    assert!(d.snapshot().is_empty());
}

#[test]
fn records_below_capacity_in_order_with_clock_timestamps() {
    let mut d = Diagnostics::new(4, AdvancingClock::starting_at(100)).unwrap();
    d.record(DiagnosticCode::Startup);
    d.record(DiagnosticCode::LayoutSwitched);
    assert!(!d.is_empty());
    assert_eq!(d.len(), 2);
    let snap = d.snapshot();
    assert_eq!(
        snap.iter().map(|e| e.code()).collect::<Vec<_>>(),
        [DiagnosticCode::Startup, DiagnosticCode::LayoutSwitched]
    );
    assert_eq!(snap[0].at_millis(), 100);
    assert_eq!(snap[1].at_millis(), 101);
}

#[test]
fn wraps_at_capacity_dropping_the_oldest() {
    let mut d = Diagnostics::new(3, FixedClock(7)).unwrap();
    for code in [
        DiagnosticCode::Startup,
        DiagnosticCode::LayoutSwitched,
        DiagnosticCode::DecodeError,
        DiagnosticCode::StoreWriteFailed,
        DiagnosticCode::StoreReadFailed,
    ] {
        d.record(code);
    }
    assert_eq!(d.len(), 3);
    assert_eq!(
        codes(&d),
        [
            DiagnosticCode::DecodeError,
            DiagnosticCode::StoreWriteFailed,
            DiagnosticCode::StoreReadFailed,
        ]
    );
}

#[test]
fn exactly_full_then_one_more_advances_the_head_correctly() {
    let mut d = Diagnostics::new(2, FixedClock(0)).unwrap();
    d.record(DiagnosticCode::Startup);
    d.record(DiagnosticCode::LayoutSwitched);
    assert_eq!(
        codes(&d),
        [DiagnosticCode::Startup, DiagnosticCode::LayoutSwitched]
    );
    d.record(DiagnosticCode::DecodeError);
    assert_eq!(
        codes(&d),
        [DiagnosticCode::LayoutSwitched, DiagnosticCode::DecodeError]
    );
}

#[test]
fn capacity_one_keeps_only_the_latest() {
    let mut d = Diagnostics::new(1, FixedClock(0)).unwrap();
    d.record(DiagnosticCode::SensitiveFieldSuppressed);
    d.record(DiagnosticCode::ClipboardExpired);
    assert_eq!(d.len(), 1);
    assert_eq!(codes(&d), [DiagnosticCode::ClipboardExpired]);
}

#[test]
fn events_are_content_free_and_therefore_copy() {
    fn assert_copy<T: Copy>(_: &T) {}
    let e = DiagnosticEvent::new(DiagnosticCode::Startup, 1);
    assert_copy(&e);
    let clone = e;
    assert_eq!(e, clone);
    assert_eq!(e.code(), DiagnosticCode::Startup);
}

#[test]
fn record_at_uses_the_given_timestamp() {
    let mut d = Diagnostics::new(2, FixedClock(0)).unwrap();
    d.record_at(DiagnosticCode::DecodeError, 42);
    assert_eq!(d.snapshot()[0].at_millis(), 42);
    assert_eq!(d.snapshot()[0].code(), DiagnosticCode::DecodeError);
}

#[test]
fn guard_error_displays_with_and_without_a_message() {
    let with = GuardError::Panicked(Some("oops".to_owned()));
    let without = GuardError::Panicked(None);
    assert_eq!(with.message(), "guarded closure panicked: oops");
    assert_eq!(without.message(), "guarded closure panicked");
}

#[test]
fn key_id_exposes_its_char() {
    let k = KeyId('f');
    assert_eq!(k.ch(), 'f');
    assert_eq!(k, KeyId('f'));
}

#[test]
fn core_error_displays_human_message() {
    assert_eq!(CoreError::EmptyLayout.message(), "layout contains no keys");
}

#[test]
fn direction_defaults_to_left_to_right() {
    assert_eq!(Direction::default(), Direction::Ltr);
}

#[test]
fn is_rtl_is_true_only_for_rtl() {
    assert!(Direction::Rtl.is_rtl());
    assert!(!Direction::Ltr.is_rtl());
}

#[test]
fn ffi_latin_layout_maps_auto_to_none() {
    assert_eq!(map_latin(FfiLatinLayout::Auto), None);
    assert_eq!(map_latin(FfiLatinLayout::Qwerty), Some(LatinLayout::Qwerty));
    assert_eq!(map_latin(FfiLatinLayout::Qwertz), Some(LatinLayout::Qwertz));
    assert_eq!(map_latin(FfiLatinLayout::Azerty), Some(LatinLayout::Azerty));
}

#[test]
fn ffi_autocorrect_outcome_enum_maps_onto_the_core_outcome_1to1() {
    assert_eq!(
        AutocorrectOutcome::from(FfiAutocorrectOutcome::Reverted),
        AutocorrectOutcome::Reverted
    );
    assert_eq!(
        AutocorrectOutcome::from(FfiAutocorrectOutcome::Kept),
        AutocorrectOutcome::Kept
    );
    assert_eq!(
        AutocorrectOutcome::from(FfiAutocorrectOutcome::Reached),
        AutocorrectOutcome::Reached
    );
}

#[test]
fn cyrillic_has_the_yctuken_rows() {
    let l = page_chars(AlphaPage::Cyrillic);
    assert_eq!(l.len(), 32);
    assert_eq!(
        l.into_iter().collect::<String>(),
        "йцукенгшщзхъфывапролджэячсмитьбю"
    );
}

#[test]
fn greek_has_twenty_five_letters() {
    let l = page_chars(AlphaPage::Greek);
    assert_eq!(l.len(), 25);
    assert_eq!(
        l.into_iter().collect::<String>(),
        "ςερτυθιοπασδφγηξκλζχψωβνμ"
    );
}

#[test]
fn azerty_and_qwertz_are_full_latin_variants() {
    for p in [AlphaPage::Azerty, AlphaPage::Qwertz] {
        let mut cs = page_chars(p);
        cs.sort_unstable();
        assert_eq!(cs, ('a'..='z').collect::<Vec<_>>());
    }
    assert_eq!(page_chars(AlphaPage::Azerty)[0], 'a');
    assert_eq!(page_chars(AlphaPage::Qwertz)[5], 'z');
}

#[test]
fn alpha_for_selects_by_primary_subtag() {
    for tag in ["ru", "uk", "be", "bg", "sr", "mk", "ru-RU", "sr_Cyrl"] {
        assert_eq!(page_chars(alpha_page_for(tag, None)).len(), 32, "{tag}");
    }
    assert_eq!(page_chars(alpha_page_for("el-GR", None)).len(), 25);
    assert_eq!(page_chars(alpha_page_for("fr", None))[0], 'a');
    assert_eq!(page_chars(alpha_page_for("de_DE", None))[0], 'q');
    assert_eq!(page_chars(alpha_page_for("lb", None))[0], 'q');
    assert_eq!(page_chars(alpha_page_for("lb", None))[5], 'z');
    assert_eq!(page_chars(alpha_page_for("lb-LU", None))[5], 'z');
    assert_eq!(page_chars(alpha_page_for("en", None))[0], 'q');
    assert_eq!(page_chars(alpha_page_for("pt-BR", None))[0], 'q');
    assert_eq!(page_chars(alpha_page_for("", None)).len(), 26);
}

#[test]
fn latin_override_replaces_the_language_default() {
    assert_eq!(
        page_chars(alpha_page_for("en", Some(LatinLayout::Azerty)))[0],
        'a'
    );
    assert_eq!(
        page_chars(alpha_page_for("de", Some(LatinLayout::Qwerty)))[0],
        'q'
    );
    assert_eq!(
        page_chars(alpha_page_for("de", Some(LatinLayout::Qwerty)))[5],
        'y'
    );
}

#[test]
fn no_override_reproduces_the_language_default() {
    assert_eq!(page_chars(alpha_page_for("en", None))[0], 'q');
    assert_eq!(page_chars(alpha_page_for("fr", None))[0], 'a');
    assert_eq!(page_chars(alpha_page_for("de", None))[5], 'z');
}

#[test]
fn non_latin_script_ignores_the_override() {
    assert_eq!(
        page_chars(alpha_page_for("ru", Some(LatinLayout::Qwerty))).len(),
        32
    );
    assert_eq!(
        page_chars(alpha_page_for("el", Some(LatinLayout::Azerty))).len(),
        25
    );
}

#[test]
fn latin_layout_build_maps_each_variant() {
    assert_eq!(page_chars(LatinLayout::Qwerty.page())[0], 'q');
    assert_eq!(page_chars(LatinLayout::Qwertz.page())[5], 'z');
    assert_eq!(page_chars(LatinLayout::Azerty.page())[0], 'a');
}

#[test]
fn edit_distance_counts_single_character_edits() {
    assert_eq!(edit_distance("kitten", "sitting"), 3);
    assert_eq!(edit_distance("", "abc"), 3);
    assert_eq!(edit_distance("abc", ""), 3);
    assert_eq!(edit_distance("café", "cafe"), 1);
    assert_eq!(edit_distance("same", "same"), 0);
    assert_eq!(edit_distance("ab", "ba"), 2);
}

#[test]
fn title_case_needs_an_upper_first_letter_and_a_lower_rest() {
    assert!(is_title_case("Zoe"));
    assert!(is_title_case("Élodie"));
    assert!(!is_title_case("zoe"));
    assert!(!is_title_case("ZOE"));
    assert!(!is_title_case("I"));
    assert!(!is_title_case(""));
    assert!(!is_title_case("McDonald"));
}

#[test]
fn error_messages_are_human_readable() {
    for e in [
        FeatherKeyError::NoLanguages,
        FeatherKeyError::Lexicon,
        FeatherKeyError::Locale,
        FeatherKeyError::EmptyLayout,
        FeatherKeyError::TouchModel,
        FeatherKeyError::Store,
    ] {
        assert!(!e.message().is_empty());
        // Clone + PartialEq are usable on the error surface.
        assert_eq!(e.clone(), e);
    }
}

#[test]
fn engine_errors_flatten_one_to_one_onto_the_shell_error() {
    assert_eq!(FfiError::from(FeatherKeyError::NoLanguages), FfiError::NoLanguages);
    assert_eq!(FfiError::from(FeatherKeyError::Store), FfiError::Store);
    assert_eq!(FfiError::from(FeatherKeyError::EmptyLayout), FfiError::EmptyLayout);
    assert_eq!(FeatherKeyError::Locale.message(), "the active-language set was rejected");
    assert_eq!(FeatherKeyError::TouchModel.message(), FfiError::TouchModel.message());
}
