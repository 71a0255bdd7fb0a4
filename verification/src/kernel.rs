//! Shared value objects and error types crossing module boundaries.
use vstd::prelude::*;
use vstd::string::StringExecFns;

verus! {

/// The identity of a key: the character it commits when pressed.
#[derive(Debug, Clone, Copy, PartialEq, Eq, Hash)]
pub struct KeyId(pub char);

impl KeyId {
    /// The character the key commits.
    pub fn ch(self) -> (c: char)
        ensures
            c == self.0,
    {
        self.0
    }
}

/// Errors returned across core-module boundaries.
#[derive(Debug, Clone, Copy, PartialEq, Eq)]
#[non_exhaustive]
pub enum CoreError {
    /// A decode was requested against a layout with no keys.
    EmptyLayout,
}

impl CoreError {
    /// The human-readable message for this error.
    pub fn message(&self) -> (m: &'static str)
        ensures
            m@ == "layout contains no keys"@,
    {
        match self {
            CoreError::EmptyLayout => "layout contains no keys",
        }
    }
}

/// Why a guarded closure did not produce a value.
#[derive(Debug, Clone, PartialEq, Eq)]
#[non_exhaustive]
pub enum GuardError {
    /// The guarded closure panicked and was caught at the boundary; the panic
    /// message is kept when the payload was text.
    Panicked(Option<String>),
}

impl GuardError {
    /// The human-readable message for this error.
    pub fn message(&self) -> (m: String)
        ensures
            m@ == match self {
                GuardError::Panicked(Some(msg)) => "guarded closure panicked: "@ + msg@,
                GuardError::Panicked(None) => "guarded closure panicked"@,
            },
    {
        match self {
            GuardError::Panicked(Some(msg)) => {
                let mut out = String::from_str("guarded closure panicked: ");
                out.append(msg.as_str());
                out
            },
            GuardError::Panicked(None) => String::from_str("guarded closure panicked"),
        }
    }
}

/// Why a dictionary could not be built.
#[derive(Debug, Clone, Copy, PartialEq, Eq)]
#[non_exhaustive]
pub enum DictionaryError {
    /// A word was lexicographically smaller than the one before it.
    Unsorted,
}

impl DictionaryError {
    /// The human-readable message for this error.
    pub fn message(&self) -> (m: &'static str)
        ensures
            m@ == "word list must be in non-decreasing (sorted) order"@,
    {
        match self {
            DictionaryError::Unsorted => "word list must be in non-decreasing (sorted) order",
        }
    }
}

/// Errors constructing a diagnostics buffer.
#[derive(Debug, Clone, Copy, PartialEq, Eq)]
#[non_exhaustive]
pub enum DiagnosticsError {
    /// A ring buffer must hold at least one event; `capacity` was zero.
    ZeroCapacity,
}

impl DiagnosticsError {
    /// The human-readable message for this error.
    pub fn message(&self) -> (m: &'static str)
        ensures
            m@ == "diagnostics capacity must be non-zero"@,
    {
        match self {
            DiagnosticsError::ZeroCapacity => "diagnostics capacity must be non-zero",
        }
    }
}

/// Why a caret position was rejected.
#[derive(Debug, Clone, Copy, PartialEq, Eq)]
pub enum EditError {
    /// The byte offset lies past the end of the text.
    OutOfBounds,
    /// The byte offset splits a multi-byte character.
    NotCharBoundary,
}

/// The reading direction a layout's script runs in (a marker only).
#[derive(Debug, Clone, Copy, PartialEq, Eq)]
pub enum Direction {
    /// Left-to-right scripts (Latin, digits, the symbol pages).
    Ltr,
    /// Right-to-left scripts (Arabic, Hebrew).
    Rtl,
}

impl Direction {
    /// `true` for a right-to-left script.
    pub fn is_rtl(self) -> (r: bool)
        ensures
            r == (self == Direction::Rtl),
    {
        match self {
            Direction::Rtl => true,
            Direction::Ltr => false,
        }
    }
}

impl Default for Direction {
    /// Left-to-right.
    fn default() -> (d: Self)
        ensures
            d == Direction::Ltr,
    {
        Direction::Ltr
    }
}

} // verus!
