//! The value types handed across the shell boundary, and their pure mappings
//! onto the engine's own types.
use crate::layouts::LatinLayout;
use vstd::prelude::*;

verus! {

/// One active language and its sorted lexicon.
#[derive(Debug, Clone, PartialEq, Eq)]
pub struct LanguagePack {
    pub tag: String,
    /// Words in non-decreasing (sorted) order.
    pub words: Vec<String>,
    /// Canonical-cased proper nouns for this language. Unordered.
    pub proper: Vec<String>,
}

/// A ranked completion.
#[derive(Debug, Clone, PartialEq, Eq)]
pub struct FfiSuggestion {
    pub word: String,
    pub score: u32,
}

/// An autocorrect decision.
#[derive(Debug, Clone, PartialEq, Eq)]
pub struct FfiCorrection {
    pub primary: String,
    pub alternatives: Vec<String>,
    pub applied: bool,
    /// The winner a gate declined to apply, if one was withheld.
    pub withheld: Option<String>,
}

/// The single flat error the shell surface returns.
#[derive(Debug, Clone, Copy, PartialEq, Eq)]
pub enum FfiError {
    NoLanguages,
    Lexicon,
    Locale,
    EmptyLayout,
    TouchModel,
    Store,
    BadKeyLength,
    StoreOpen,
}

/// The message each [`FfiError`] displays.
pub open spec fn ffi_error_message(e: FfiError) -> Seq<char> {
    match e {
        FfiError::NoLanguages => "at least one active language is required"@,
        FfiError::Lexicon => "a language word list is not a sorted set"@,
        FfiError::Locale => "the active-language set was rejected"@,
        FfiError::EmptyLayout => "the active layout has no keys to decode against"@,
        FfiError::TouchModel => "the tap observation was rejected"@,
        FfiError::Store => "the secure store failed"@,
        FfiError::BadKeyLength => "the device key must be exactly 32 bytes"@,
        FfiError::StoreOpen => "the secure store could not be opened"@,
    }
}

impl FfiError {
    /// The human-readable message for this error.
    pub fn message(&self) -> (m: &'static str)
        ensures
            m@ == ffi_error_message(*self),
    {
        match self {
            FfiError::NoLanguages => "at least one active language is required",
            FfiError::Lexicon => "a language word list is not a sorted set",
            FfiError::Locale => "the active-language set was rejected",
            FfiError::EmptyLayout => "the active layout has no keys to decode against",
            FfiError::TouchModel => "the tap observation was rejected",
            FfiError::Store => "the secure store failed",
            FfiError::BadKeyLength => "the device key must be exactly 32 bytes",
            FfiError::StoreOpen => "the secure store could not be opened",
        }
    }
}

/// Where a shell-gathered candidate came from.
#[derive(Debug, Clone, Copy, PartialEq, Eq)]
pub enum FfiSource {
    Lexicon,
    Device,
}

/// The Latin arrangement a user picked, or `Auto` (per-language default).
#[derive(Debug, Clone, Copy, PartialEq, Eq)]
pub enum FfiLatinLayout {
    Auto,
    Qwerty,
    Qwertz,
    Azerty,
}

/// The real-world outcome of the last gated correction.
#[derive(Debug, Clone, Copy, PartialEq, Eq)]
pub enum FfiAutocorrectOutcome {
    /// The user reverted/undid it.
    Reverted,
    /// The user kept it, with no strong signal either way.
    Kept,
    /// The user typed on past it cleanly.
    Reached,
}

/// The engine's own error, before the shell surface flattens it.
#[derive(Debug, Clone, Copy, PartialEq, Eq)]
pub enum FeatherKeyError {
    /// No active language was given.
    NoLanguages,
    /// A language word list is not a sorted set.
    Lexicon,
    /// The active-language set was rejected.
    Locale,
    /// The active layout has no keys.
    EmptyLayout,
    /// A tap observation was rejected.
    TouchModel,
    /// The store failed.
    Store,
}

/// The shell error an engine error becomes (one to one).
pub open spec fn flattened(e: FeatherKeyError) -> FfiError {
    match e {
        FeatherKeyError::NoLanguages => FfiError::NoLanguages,
        FeatherKeyError::Lexicon => FfiError::Lexicon,
        FeatherKeyError::Locale => FfiError::Locale,
        FeatherKeyError::EmptyLayout => FfiError::EmptyLayout,
        FeatherKeyError::TouchModel => FfiError::TouchModel,
        FeatherKeyError::Store => FfiError::Store,
    }
}

impl From<FeatherKeyError> for FfiError {
    fn from(e: FeatherKeyError) -> (r: Self) {
        match e {
            FeatherKeyError::NoLanguages => FfiError::NoLanguages,
            FeatherKeyError::Lexicon => FfiError::Lexicon,
            FeatherKeyError::Locale => FfiError::Locale,
            FeatherKeyError::EmptyLayout => FfiError::EmptyLayout,
            FeatherKeyError::TouchModel => FfiError::TouchModel,
            FeatherKeyError::Store => FfiError::Store,
        }
    }
}

impl vstd::std_specs::convert::FromSpecImpl<FeatherKeyError> for FfiError {
    open spec fn obeys_from_spec() -> bool {
        true
    }

    open spec fn from_spec(v: FeatherKeyError) -> FfiError {
        flattened(v)
    }
}

impl FeatherKeyError {
    /// The human-readable message: the one the shell surface shows for the
    /// error this one becomes.
    pub fn message(&self) -> (m: &'static str)
        ensures
            m@ == ffi_error_message(flattened(*self)),
    {
        let flat = FfiError::from(*self);
        flat.message()
    }
}

/// The engine's own view of an autocorrect outcome.
#[derive(Debug, Clone, Copy, PartialEq, Eq)]
pub enum AutocorrectOutcome {
    Reverted,
    Kept,
    Reached,
}

/// The engine outcome an FFI outcome stands for (one to one).
pub open spec fn outcome_of(o: FfiAutocorrectOutcome) -> AutocorrectOutcome {
    match o {
        FfiAutocorrectOutcome::Reverted => AutocorrectOutcome::Reverted,
        FfiAutocorrectOutcome::Kept => AutocorrectOutcome::Kept,
        FfiAutocorrectOutcome::Reached => AutocorrectOutcome::Reached,
    }
}

impl From<FfiAutocorrectOutcome> for AutocorrectOutcome {
    fn from(o: FfiAutocorrectOutcome) -> (r: Self) {
        match o {
            FfiAutocorrectOutcome::Reverted => AutocorrectOutcome::Reverted,
            FfiAutocorrectOutcome::Kept => AutocorrectOutcome::Kept,
            FfiAutocorrectOutcome::Reached => AutocorrectOutcome::Reached,
        }
    }
}

impl vstd::std_specs::convert::FromSpecImpl<FfiAutocorrectOutcome> for AutocorrectOutcome {
    open spec fn obeys_from_spec() -> bool {
        true
    }

    open spec fn from_spec(v: FfiAutocorrectOutcome) -> AutocorrectOutcome {
        outcome_of(v)
    }
}

/// The arrangement an FFI choice stands for: `Auto` means no override.
pub open spec fn latin_choice(layout: FfiLatinLayout) -> Option<LatinLayout> {
    match layout {
        FfiLatinLayout::Auto => None,
        FfiLatinLayout::Qwerty => Some(LatinLayout::Qwerty),
        FfiLatinLayout::Qwertz => Some(LatinLayout::Qwertz),
        FfiLatinLayout::Azerty => Some(LatinLayout::Azerty),
    }
}

/// Map the FFI arrangement choice onto the engine's (`Auto` -> `None`).
pub fn map_latin(layout: FfiLatinLayout) -> (r: Option<LatinLayout>)
    ensures
        r == latin_choice(layout),
{
    match layout {
        FfiLatinLayout::Auto => None,
        FfiLatinLayout::Qwerty => Some(LatinLayout::Qwerty),
        FfiLatinLayout::Qwertz => Some(LatinLayout::Qwertz),
        FfiLatinLayout::Azerty => Some(LatinLayout::Azerty),
    }
}

/// One candidate the shell gathered, tagged by language and its rank within
/// its own source.
#[derive(Debug, Clone, PartialEq, Eq)]
pub struct FfiRankCandidate {
    pub word: String,
    pub lang: String,
    pub source: FfiSource,
    pub source_rank: u32,
}

/// A candidate after ranking, in final order.
#[derive(Debug, Clone, PartialEq, Eq)]
pub struct FfiRanked {
    pub word: String,
    pub lang: String,
}

/// One learned word and its observed frequency.
#[derive(Debug, Clone, PartialEq, Eq)]
pub struct FfiWordFreq {
    pub word: String,
    pub freq: u32,
}

/// One `prev -> next` bigram transition with its count.
#[derive(Debug, Clone, PartialEq, Eq)]
pub struct FfiTransition {
    pub prev: String,
    pub next: String,
    pub count: u32,
}

/// Whether the field being typed into is sensitive (password, OTP): the
/// shell implements it from the editor's field attributes.
pub trait SensitiveField: Send + Sync {
    fn is_sensitive(&self) -> bool;
}

} // verus!
