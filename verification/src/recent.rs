//! Recent words: a small ephemeral buffer of the last two committed words, so
//! the language model gets two-word context.
use crate::text::{owned, same_text};
use vstd::prelude::*;

verus! {

/// The context a buffer holding `older`, `newer` gives for `preceding`:
/// nothing at a boundary (empty `preceding`), both words when the newest
/// matches `preceding` and an older word exists, else just `preceding`.
pub open spec fn context_for(
    older: Option<Seq<char>>,
    newer: Option<Seq<char>>,
    preceding: Seq<char>,
) -> Seq<Seq<char>> {
    if preceding.len() == 0 {
        Seq::empty()
    } else if newer == Some(preceding) && older is Some {
        seq![older->0, preceding]
    } else {
        seq![preceding]
    }
}

/// A small buffer holding the last two committed words.
#[derive(Debug, Clone)]
pub struct RecentWords {
    /// The older of the two words (entered first).
    older: Option<String>,
    /// The newer of the two words (entered most recently).
    newer: Option<String>,
}

/// An optional string's characters.
pub open spec fn opt_view(o: Option<String>) -> Option<Seq<char>> {
    match o {
        Some(s) => Some(s@),
        None => None,
    }
}

impl RecentWords {
    /// The older word, if any.
    pub closed spec fn older_view(&self) -> Option<Seq<char>> {
        opt_view(self.older)
    }

    /// The newer word, if any.
    pub closed spec fn newer_view(&self) -> Option<Seq<char>> {
        opt_view(self.newer)
    }

    /// An empty buffer.
    pub fn new() -> (r: Self)
        ensures
            r.older_view() is None,
            r.newer_view() is None,
    {
        RecentWords { older: None, newer: None }
    }

    /// Advance the window: the newer word becomes the older, `word` the newer.
    pub fn push(&mut self, word: &str)
        ensures
            final(self).older_view() == old(self).newer_view(),
            final(self).newer_view() == Some(word@),
    {
        self.older = self.newer.take();
        self.newer = Some(owned(word));
    }

    /// Two-word context for the language model given the preceding word:
    /// `[]` at a boundary, `[older, preceding]` when the newest buffered word
    /// is `preceding` and an older one exists, otherwise `[preceding]`.
    pub fn two_word_context(&self, preceding: &str) -> (r: Vec<String>)
        ensures
            r@.map_values(|s: String| s@) == context_for(
                self.older_view(),
                self.newer_view(),
                preceding@,
            ),
    {
        if preceding.is_empty() {
            let r: Vec<String> = Vec::new();
            assert(r@.map_values(|s: String| s@) =~= Seq::<Seq<char>>::empty());
            return r;
        }
        if let Some(newer) = &self.newer {
            if same_text(newer.as_str(), preceding) {
                if let Some(older) = &self.older {
                    let mut r: Vec<String> = Vec::new();
                    r.push(older.clone());
                    r.push(owned(preceding));
                    assert(r@.map_values(|s: String| s@) =~= seq![older@, preceding@]);
                    return r;
                }
            }
        }
        let mut r: Vec<String> = Vec::new();
        r.push(owned(preceding));
        assert(r@.map_values(|s: String| s@) =~= seq![preceding@]);
        r
    }
}

impl Default for RecentWords {
    /// An empty buffer.
    fn default() -> (r: Self)
        ensures
            r.older_view() is None,
            r.newer_view() is None,
    {
        Self::new()
    }
}

} // verus!
