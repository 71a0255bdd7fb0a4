//! On-device correction-signal learning: strip-pick preferences
//! (`prefix -> {picked -> count}`) and low-weight `unwanted` words.
//!
//! Sensitive-field gating happens upstream: if this model is told to note a
//! signal, it records it.
use crate::counts::{bumped, count_in, WordCounts};
use crate::nested::{followers, pair_count, NestedCounts};
use crate::text::{contains_separator, has_separator};
use crate::replay::{
    assigned, assigned_flat, lemma_assigned_flat_idempotent, lemma_assigned_idempotent,
};
use vstd::prelude::*;

verus! {

/// A token (prefix, picked word, or unwanted word) is storable when it is
/// non-empty and holds no codec separator (`\n`, `\t`).
pub open spec fn storable_token(token: Seq<char>) -> bool {
    token.len() > 0 && !has_separator(token)
}

/// `true` if `token` is non-empty and free of `\n` and `\t`.
pub fn is_storable(token: &str) -> (r: bool)
    ensures
        r == storable_token(token@),
{
    !token.is_empty() && !contains_separator(token)
}

/// The preferences after importing `rows` in order (set semantics; zero
/// counts and unstorable tokens skipped).
pub open spec fn prefs_imported(
    m: Map<Seq<char>, Map<Seq<char>, u32>>,
    rows: Seq<(Seq<char>, Seq<char>, u32)>,
) -> Map<Seq<char>, Map<Seq<char>, u32>>
    decreases rows.len(),
{
    if rows.len() == 0 {
        m
    } else {
        let before = prefs_imported(m, rows.drop_last());
        let (p, w, c) = rows.last();
        if c != 0 && storable_token(p) && storable_token(w) {
            before.insert(p, followers(before, p).insert(w, c))
        } else {
            before
        }
    }
}

/// The unwanted counts after importing `rows` in order (set semantics; zero
/// counts and unstorable words skipped).
pub open spec fn unwanted_imported(m: Map<Seq<char>, u32>, rows: Seq<(Seq<char>, u32)>) -> Map<
    Seq<char>,
    u32,
>
    decreases rows.len(),
{
    if rows.len() == 0 {
        m
    } else {
        let before = unwanted_imported(m, rows.drop_last());
        let (w, c) = rows.last();
        if c != 0 && storable_token(w) {
            before.insert(w, c)
        } else {
            before
        }
    }
}

/// A per-user correction-signal model.
#[derive(Debug, Clone, Default, PartialEq, Eq)]
pub struct Corrections {
    /// For each typed `prefix`, how often each `picked` word was chosen.
    prefs: NestedCounts,
    /// How often each word was flagged unwanted.
    unwanted: WordCounts,
}

impl Corrections {
    /// Both maps are well formed.
    pub closed spec fn wf(&self) -> bool {
        self.prefs.wf() && self.unwanted.wf()
    }

    /// `prefix -> {picked -> count}`.
    pub closed spec fn prefs_view(&self) -> Map<Seq<char>, Map<Seq<char>, u32>> {
        self.prefs@
    }

    /// `word -> count` of unwanted signals.
    pub closed spec fn unwanted_view(&self) -> Map<Seq<char>, u32> {
        self.unwanted@
    }

    /// A fresh model that knows no corrections.
    pub fn new() -> (r: Self)
        ensures
            r.wf(),
            r.prefs_view() == Map::<Seq<char>, Map<Seq<char>, u32>>::empty(),
            r.unwanted_view() == Map::<Seq<char>, u32>::empty(),
    {
        Corrections { prefs: NestedCounts::new(), unwanted: WordCounts::new() }
    }

    /// Record that, for the typed `prefix`, the user picked `picked` (count
    /// saturates). Unstorable tokens are ignored.
    pub fn note_pick(&mut self, prefix: &str, picked: &str)
        requires
            old(self).wf(),
        ensures
            final(self).wf(),
            final(self).unwanted_view() == old(self).unwanted_view(),
            final(self).prefs_view() == if storable_token(prefix@) && storable_token(picked@) {
                old(self).prefs_view().insert(
                    prefix@,
                    followers(old(self).prefs_view(), prefix@).insert(
                        picked@,
                        bumped(pair_count(old(self).prefs_view(), prefix@, picked@)),
                    ),
                )
            } else {
                old(self).prefs_view()
            },
    {
        if !is_storable(prefix) || !is_storable(picked) {
            return;
        }
        self.prefs.bump(prefix, picked);
    }

    /// Record one `unwanted` signal for `word` (count saturates). Unstorable
    /// input is ignored.
    pub fn note_unwanted(&mut self, word: &str)
        requires
            old(self).wf(),
        ensures
            final(self).wf(),
            final(self).prefs_view() == old(self).prefs_view(),
            final(self).unwanted_view() == if storable_token(word@) {
                old(self).unwanted_view().insert(
                    word@,
                    bumped(count_in(old(self).unwanted_view(), word@)),
                )
            } else {
                old(self).unwanted_view()
            },
    {
        if !is_storable(word) {
            return;
        }
        self.unwanted.bump(word);
    }

    /// How often `word` was picked for `prefix`; `0` if never.
    pub fn pref_count(&self, prefix: &str, word: &str) -> (c: u32)
        requires
            self.wf(),
        ensures
            c == pair_count(self.prefs_view(), prefix@, word@),
    {
        self.prefs.count_of(prefix, word)
    }

    /// How often `word` was flagged unwanted; `0` if never.
    pub fn unwanted_count(&self, word: &str) -> (c: u32)
        requires
            self.wf(),
        ensures
            c == count_in(self.unwanted_view(), word@),
    {
        self.unwanted.count_of(word)
    }

    /// Bulk-set strip-pick preference counts (set semantics, so re-running an
    /// import is idempotent). Unstorable tokens and zero counts are skipped.
    pub fn import_prefs(&mut self, entries: Vec<(String, String, u32)>)
        requires
            old(self).wf(),
        ensures
            final(self).wf(),
            final(self).unwanted_view() == old(self).unwanted_view(),
            final(self).prefs_view() == prefs_imported(
                old(self).prefs_view(),
                entries@.map_values(|t: (String, String, u32)| (t.0@, t.1@, t.2)),
            ),
    {
        let ghost rows = entries@.map_values(|t: (String, String, u32)| (t.0@, t.1@, t.2));
        let ghost start = self.prefs_view();
        let n = entries.len();
        assert(rows.take(0) =~= Seq::<(Seq<char>, Seq<char>, u32)>::empty());
        for k in 0..n
            invariant
                self.wf(),
                self.unwanted_view() == old(self).unwanted_view(),
                n == entries@.len(),
                rows == entries@.map_values(|t: (String, String, u32)| (t.0@, t.1@, t.2)),
                self.prefs_view() == prefs_imported(start, rows.take(k as int)),
        {
            let prefix = entries[k].0.clone();
            let picked = entries[k].1.clone();
            let count = entries[k].2;
            assert(rows.take(k + 1).drop_last() =~= rows.take(k as int));
            assert(rows.take(k + 1).last() == rows[k as int]);
            if count != 0 && is_storable(prefix.as_str()) && is_storable(picked.as_str()) {
                self.prefs.set(prefix, picked, count);
            }
        }
        assert(rows.take(n as int) =~= rows);
    }

    /// Bulk-set unwanted counts (set semantics). Unstorable words and zero
    /// counts are skipped.
    pub fn import_unwanted(&mut self, entries: Vec<(String, u32)>)
        requires
            old(self).wf(),
        ensures
            final(self).wf(),
            final(self).prefs_view() == old(self).prefs_view(),
            final(self).unwanted_view() == unwanted_imported(
                old(self).unwanted_view(),
                entries@.map_values(|t: (String, u32)| (t.0@, t.1)),
            ),
    {
        let ghost rows = entries@.map_values(|t: (String, u32)| (t.0@, t.1));
        let ghost start = self.unwanted_view();
        let n = entries.len();
        assert(rows.take(0) =~= Seq::<(Seq<char>, u32)>::empty());
        for k in 0..n
            invariant
                self.wf(),
                self.prefs_view() == old(self).prefs_view(),
                n == entries@.len(),
                rows == entries@.map_values(|t: (String, u32)| (t.0@, t.1)),
                self.unwanted_view() == unwanted_imported(start, rows.take(k as int)),
        {
            let word = entries[k].0.clone();
            let count = entries[k].1;
            assert(rows.take(k + 1).drop_last() =~= rows.take(k as int));
            assert(rows.take(k + 1).last() == rows[k as int]);
            if count != 0 && is_storable(word.as_str()) {
                self.unwanted.set(word, count);
            }
        }
        assert(rows.take(n as int) =~= rows);
    }
}

/// Which preference rows are applied: a non-zero count and storable tokens.
pub open spec fn pref_row_ok(r: (Seq<char>, Seq<char>, u32)) -> bool {
    r.2 != 0 && storable_token(r.0) && storable_token(r.1)
}

/// Which unwanted rows are applied: a non-zero count and a storable word.
pub open spec fn unwanted_row_ok(r: (Seq<char>, u32)) -> bool {
    r.1 != 0 && storable_token(r.0)
}

/// A preference import is a replay of its accepted rows.
proof fn lemma_prefs_replay(m: Map<Seq<char>, Map<Seq<char>, u32>>, rows: Seq<(Seq<char>, Seq<char>, u32)>)
    ensures
        prefs_imported(m, rows) == assigned(m, rows, |r: (Seq<char>, Seq<char>, u32)| pref_row_ok(r)),
    decreases rows.len(),
{
    if rows.len() > 0 {
        lemma_prefs_replay(m, rows.drop_last());
    }
}

/// An unwanted import is a replay of its accepted rows.
proof fn lemma_unwanted_replay(m: Map<Seq<char>, u32>, rows: Seq<(Seq<char>, u32)>)
    ensures
        unwanted_imported(m, rows) == assigned_flat(m, rows, |r: (Seq<char>, u32)| unwanted_row_ok(r)),
    decreases rows.len(),
{
    if rows.len() > 0 {
        lemma_unwanted_replay(m, rows.drop_last());
    }
}

/// Importing the same preference rows twice leaves them as importing once.
pub proof fn import_prefs_is_idempotent(
    m: Map<Seq<char>, Map<Seq<char>, u32>>,
    rows: Seq<(Seq<char>, Seq<char>, u32)>,
)
    ensures
        prefs_imported(prefs_imported(m, rows), rows) == prefs_imported(m, rows),
{
    lemma_prefs_replay(m, rows);
    lemma_prefs_replay(prefs_imported(m, rows), rows);
    lemma_assigned_idempotent(m, rows, |r: (Seq<char>, Seq<char>, u32)| pref_row_ok(r));
}

/// Importing the same unwanted rows twice leaves them as importing once.
pub proof fn import_unwanted_is_idempotent(m: Map<Seq<char>, u32>, rows: Seq<(Seq<char>, u32)>)
    ensures
        unwanted_imported(unwanted_imported(m, rows), rows) == unwanted_imported(m, rows),
{
    lemma_unwanted_replay(m, rows);
    lemma_unwanted_replay(unwanted_imported(m, rows), rows);
    lemma_assigned_flat_idempotent(m, rows, |r: (Seq<char>, u32)| unwanted_row_ok(r));
}

} // verus!
