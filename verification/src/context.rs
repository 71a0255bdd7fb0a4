//! On-device next-word (bigram) learning: for each word the user commits,
//! which words tend to follow it, as `prev -> {next -> count}`.
//!
//! Tokens shorter than two characters are skipped (a weak signal), tokens
//! holding a codec separator (`\n`, `\t`) are never stored, and counts
//! saturate so an unbounded typing stream can never overflow.
use crate::counts::{bumped, top_ranked, WordCounts};
use crate::nested::{followers, pair_count, NestedCounts};
use crate::replay::{assigned, lemma_assigned_idempotent};
use crate::text::{char_count, contains_separator, has_separator};
use vstd::prelude::*;

verus! {

/// The shortest token worth learning.
pub const MIN_TOKEN_CHARS: usize = 2;

/// A token is storable when it holds no codec separator (`\n`, `\t`).
pub open spec fn storable(token: Seq<char>) -> bool {
    !has_separator(token)
}

/// A token is learnable when it has at least [`MIN_TOKEN_CHARS`] characters
/// and is storable.
pub open spec fn learnable(token: Seq<char>) -> bool {
    token.len() >= MIN_TOKEN_CHARS && storable(token)
}

/// `true` if `token` is free of the codec's separators (`\n`, `\t`).
pub fn is_storable(token: &str) -> (r: bool)
    ensures
        r == storable(token@),
{
    !contains_separator(token)
}

/// `true` if a token is long enough and clean enough to learn.
pub fn is_learnable(token: &str) -> (r: bool)
    ensures
        r == learnable(token@),
{
    char_count(token) >= MIN_TOKEN_CHARS && is_storable(token)
}

/// The model after one `prev -> next` transition is recorded.
pub open spec fn recorded(
    m: Map<Seq<char>, Map<Seq<char>, u32>>,
    prev: Seq<char>,
    next: Seq<char>,
) -> Map<Seq<char>, Map<Seq<char>, u32>> {
    if learnable(prev) && learnable(next) {
        m.insert(prev, followers(m, prev).insert(next, bumped(pair_count(m, prev, next))))
    } else {
        m
    }
}

/// The model after importing `rows` in order: each storable row sets its count.
pub open spec fn imported(
    m: Map<Seq<char>, Map<Seq<char>, u32>>,
    rows: Seq<(Seq<char>, Seq<char>, u32)>,
) -> Map<Seq<char>, Map<Seq<char>, u32>>
    decreases rows.len(),
{
    if rows.len() == 0 {
        m
    } else {
        let before = imported(m, rows.drop_last());
        let (p, n, c) = rows.last();
        if storable(p) && storable(n) {
            before.insert(p, followers(before, p).insert(n, c))
        } else {
            before
        }
    }
}

/// A per-user next-word (bigram) model: for each previous word, how often each
/// word has followed it.
#[derive(Debug, Clone, Default, PartialEq, Eq)]
pub struct Context {
    /// `prev -> (next -> count)`, ascending at both levels.
    frequencies: NestedCounts,
}

impl View for Context {
    type V = Map<Seq<char>, Map<Seq<char>, u32>>;

    closed spec fn view(&self) -> Map<Seq<char>, Map<Seq<char>, u32>> {
        self.frequencies@
    }
}

impl Context {
    /// The count maps are well formed.
    pub closed spec fn wf(&self) -> bool {
        self.frequencies.wf()
    }

    /// A fresh model that has learned no transitions.
    pub fn new() -> (r: Self)
        ensures
            r.wf(),
            r@ == Map::<Seq<char>, Map<Seq<char>, u32>>::empty(),
    {
        Context { frequencies: NestedCounts::new() }
    }

    /// `true` while nothing has been learned yet.
    pub fn is_empty(&self) -> (r: bool)
        requires
            self.wf(),
        ensures
            r == (self@ == Map::<Seq<char>, Map<Seq<char>, u32>>::empty()),
    {
        self.frequencies.is_empty()
    }

    /// Record that `next` followed `prev`, incrementing that transition's count
    /// (saturating at `u32::MAX`). Unlearnable tokens are skipped.
    pub fn record(&mut self, prev: &str, next: &str)
        requires
            old(self).wf(),
        ensures
            final(self).wf(),
            final(self)@ == recorded(old(self)@, prev@, next@),
    {
        if !is_learnable(prev) || !is_learnable(next) {
            return;
        }
        self.frequencies.bump(prev, next);
    }

    /// The words most often typed after `prev`, most frequent first; equal
    /// counts in ascending word order. At most `limit` words; an unknown
    /// `prev` yields none.
    pub fn next_words(&self, prev: &str, limit: usize) -> (r: Vec<String>)
        requires
            self.wf(),
        ensures
            top_ranked(followers(self@, prev@), r@.map_values(|s: String| s@), limit as nat),
    {
        match self.frequencies.inner_of(prev) {
            Some(w) => w.top_words(limit),
            None => {
                let r: Vec<String> = Vec::new();
                assert(r@.map_values(|s: String| s@) =~= Seq::<Seq<char>>::empty());
                r
            },
        }
    }

    /// The raw next-word counts after `prev` (empty if none).
    pub fn next_counts(&self, prev: &str) -> (r: WordCounts)
        requires
            self.wf(),
        ensures
            r.wf(),
            r@ == followers(self@, prev@),
    {
        match self.frequencies.inner_of(prev) {
            Some(w) => w.duplicate(),
            None => WordCounts::new(),
        }
    }

    /// Bulk-load `(prev, next, count)` transitions: counts are **set**, the
    /// last write wins; rows holding a codec separator are skipped.
    pub fn import(&mut self, transitions: Vec<(String, String, u32)>)
        requires
            old(self).wf(),
        ensures
            final(self).wf(),
            final(self)@ == imported(
                old(self)@,
                transitions@.map_values(|t: (String, String, u32)| (t.0@, t.1@, t.2)),
            ),
    {
        let ghost rows = transitions@.map_values(|t: (String, String, u32)| (t.0@, t.1@, t.2));
        let ghost start = self@;
        let n = transitions.len();
        assert(rows.take(0) =~= Seq::<(Seq<char>, Seq<char>, u32)>::empty());
        for k in 0..n
            invariant
                self.wf(),
                n == transitions@.len(),
                rows == transitions@.map_values(|t: (String, String, u32)| (t.0@, t.1@, t.2)),
                self@ == imported(start, rows.take(k as int)),
        {
            let prev = transitions[k].0.clone();
            let next = transitions[k].1.clone();
            let count = transitions[k].2;
            assert(rows.take(k + 1).drop_last() =~= rows.take(k as int));
            assert(rows.take(k + 1).last() == rows[k as int]);
            if is_storable(prev.as_str()) && is_storable(next.as_str()) {
                self.frequencies.set(prev, next, count);
            }
        }
        assert(rows.take(n as int) =~= rows);
    }
}

/// Which import rows are applied: both tokens storable.
pub open spec fn import_row_ok(r: (Seq<char>, Seq<char>, u32)) -> bool {
    storable(r.0) && storable(r.1)
}

/// An import is a replay of its storable rows.
proof fn lemma_imported_replays(
    m: Map<Seq<char>, Map<Seq<char>, u32>>,
    rows: Seq<(Seq<char>, Seq<char>, u32)>,
)
    ensures
        imported(m, rows) == assigned(m, rows, |r: (Seq<char>, Seq<char>, u32)| import_row_ok(r)),
    decreases rows.len(),
{
    if rows.len() > 0 {
        lemma_imported_replays(m, rows.drop_last());
    }
}

/// Importing the same transitions twice leaves the model as importing them
/// once: counts are set, not added.
pub proof fn import_is_idempotent(
    m: Map<Seq<char>, Map<Seq<char>, u32>>,
    rows: Seq<(Seq<char>, Seq<char>, u32)>,
)
    ensures
        imported(imported(m, rows), rows) == imported(m, rows),
{
    lemma_imported_replays(m, rows);
    lemma_imported_replays(imported(m, rows), rows);
    lemma_assigned_idempotent(m, rows, |r: (Seq<char>, Seq<char>, u32)| import_row_ok(r));
}

} // verus!
