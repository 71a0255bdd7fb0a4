//! `WordCounts`: an ordered map from words to counts (ascending word order,
//! like a `BTreeMap<String, u32>`), and the frequency ranking over it.
use crate::assoc::{
    find_text, lemma_text_map, lemma_text_map_insert, lemma_text_map_update, sorted_by_text,
    text_map,
};
use crate::text::{lemma_seq_lt_asymmetric, lemma_seq_lt_irreflexive, owned, seq_lt};
use vstd::prelude::*;

verus! {

/// A count incremented by one, saturating at `u32::MAX`.
pub open spec fn bumped(c: u32) -> u32 {
    if c == u32::MAX {
        c
    } else {
        (c + 1) as u32
    }
}

/// The count `m` holds for `w`, or `0` when it holds none.
pub open spec fn count_in(m: Map<Seq<char>, u32>, w: Seq<char>) -> u32 {
    if m.contains_key(w) {
        m[w]
    } else {
        0
    }
}

/// In a frequency ranking over `m`, `a` comes before `b`: it has the higher
/// count, or the same count and the smaller word.
pub open spec fn ranks_before(m: Map<Seq<char>, u32>, a: Seq<char>, b: Seq<char>) -> bool {
    m[a] > m[b] || (m[a] == m[b] && seq_lt(a, b))
}

/// Frequency order: a higher count comes first whatever the words, and
/// between equal counts the `str`-smaller word comes first.
pub proof fn frequency_order_is_count_then_word(m: Map<Seq<char>, u32>, a: Seq<char>, b: Seq<char>)
    ensures
        m[a] > m[b] ==> ranks_before(m, a, b),
        m[a] < m[b] ==> !ranks_before(m, a, b),
        m[a] == m[b] ==> (ranks_before(m, a, b) <==> seq_lt(a, b)),
{
}

/// `r` is the first `limit` words of `m` in frequency order (most frequent
/// first, ties by ascending word).
pub open spec fn top_ranked(m: Map<Seq<char>, u32>, r: Seq<Seq<char>>, limit: nat) -> bool {
    &&& r.len() == if limit < m.dom().len() {
        limit
    } else {
        m.dom().len()
    }
    &&& forall|i: int| 0 <= i < r.len() ==> m.contains_key(#[trigger] r[i])
    &&& forall|i: int, j: int| 0 <= i < j < r.len() ==> ranks_before(m, #[trigger] r[i], #[trigger] r[j])
    &&& forall|w: Seq<char>, i: int|
        0 <= i < r.len() && #[trigger] m.contains_key(w) && !r.contains(w) ==> ranks_before(
            m,
            #[trigger] r[i],
            w,
        )
}

/// Words with counts, in ascending word order.
#[derive(Debug, Clone, Default, PartialEq, Eq)]
pub struct WordCounts {
    entries: Vec<(String, u32)>,
}

impl View for WordCounts {
    type V = Map<Seq<char>, u32>;

    closed spec fn view(&self) -> Map<Seq<char>, u32> {
        text_map(self.entries@)
    }
}

impl WordCounts {
    /// Entries sorted by word, each word once.
    pub closed spec fn wf(&self) -> bool {
        sorted_by_text(self.entries@)
    }

    /// No counts.
    pub fn new() -> (r: Self)
        ensures
            r.wf(),
            r@ == Map::<Seq<char>, u32>::empty(),
    {
        WordCounts { entries: Vec::new() }
    }

    /// The number of words counted.
    pub fn len(&self) -> (n: usize)
        requires
            self.wf(),
        ensures
            n == self@.dom().len(),
            self@.dom().finite(),
    {
        proof {
            lemma_text_map(self.entries@);
        }
        self.entries.len()
    }

    /// `true` when no word is counted.
    pub fn is_empty(&self) -> (r: bool)
        requires
            self.wf(),
        ensures
            r == (self@ == Map::<Seq<char>, u32>::empty()),
    {
        proof {
            lemma_text_map(self.entries@);
            if self.entries@.len() > 0 {
                assert(self@.contains_key(self.entries@[0].0@));
            } else {
                assert(self@ =~= Map::<Seq<char>, u32>::empty());
            }
        }
        self.entries.len() == 0
    }

    /// The count stored for `word`, if any.
    pub fn get(&self, word: &str) -> (r: Option<&u32>)
        requires
            self.wf(),
        ensures
            match r {
                Some(c) => self@.contains_key(word@) && *c == self@[word@],
                None => !self@.contains_key(word@),
            },
    {
        match find_text(&self.entries, word) {
            Ok(i) => Some(&self.entries[i].1),
            Err(_) => None,
        }
    }

    /// The count stored for `word`, or `0`.
    pub fn count_of(&self, word: &str) -> (c: u32)
        requires
            self.wf(),
        ensures
            c == count_in(self@, word@),
    {
        match find_text(&self.entries, word) {
            Ok(i) => self.entries[i].1,
            Err(_) => 0,
        }
    }

    /// Add one to the count of `word` (starting from `0`), saturating.
    pub fn bump(&mut self, word: &str)
        requires
            old(self).wf(),
        ensures
            final(self).wf(),
            final(self)@ == old(self)@.insert(word@, bumped(count_in(old(self)@, word@))),
    {
        match find_text(&self.entries, word) {
            Ok(i) => {
                let c = self.entries[i].1;
                let next = c.saturating_add(1);
                proof {
                    lemma_text_map_update(self.entries@, i as int, next);
                }
                self.entries[i].1 = next;
                assert(self.entries@ == old(self).entries@.update(
                    i as int,
                    (old(self).entries@[i as int].0, next),
                ));
            },
            Err(j) => {
                let key = owned(word);
                proof {
                    lemma_text_map_insert(self.entries@, j as int, key, 1u32);
                }
                self.entries.insert(j, (key, 1));
            },
        }
    }

    /// Set the count of `word` to `count`, replacing any earlier one.
    pub fn set(&mut self, word: String, count: u32)
        requires
            old(self).wf(),
        ensures
            final(self).wf(),
            final(self)@ == old(self)@.insert(word@, count),
    {
        match find_text(&self.entries, word.as_str()) {
            Ok(i) => {
                proof {
                    lemma_text_map_update(self.entries@, i as int, count);
                }
                self.entries[i].1 = count;
                assert(self.entries@ == old(self).entries@.update(
                    i as int,
                    (old(self).entries@[i as int].0, count),
                ));
            },
            Err(j) => {
                proof {
                    lemma_text_map_insert(self.entries@, j as int, word, count);
                }
                self.entries.insert(j, (word, count));
            },
        }
    }

    /// A copy holding the same counts.
    pub fn duplicate(&self) -> (r: WordCounts)
        requires
            self.wf(),
        ensures
            r.wf(),
            r@ == self@,
    {
        let mut out: Vec<(String, u32)> = Vec::new();
        let n = self.entries.len();
        for k in 0..n
            invariant
                n == self.entries@.len(),
                out@.len() == k,
                forall|i: int| 0 <= i < k ==> (#[trigger] out@[i]).0@ == self.entries@[i].0@
                    && out@[i].1 == self.entries@[i].1,
        {
            let w = self.entries[k].0.clone();
            out.push((w, self.entries[k].1));
        }
        proof {
            lemma_same_text_map(out@, self.entries@);
        }
        WordCounts { entries: out }
    }

    /// The counted words with their counts, in ascending word order.
    pub fn pairs(&self) -> (r: Vec<(String, u32)>)
        requires
            self.wf(),
        ensures
            sorted_by_text(r@),
            text_map(r@) == self@,
    {
        let c = self.duplicate();
        c.entries
    }

    /// The first `limit` words in frequency order: most frequent first, equal
    /// counts in ascending word order.
    pub fn top_words(&self, limit: usize) -> (r: Vec<String>)
        requires
            self.wf(),
        ensures
            top_ranked(self@, r@.map_values(|s: String| s@), limit as nat),
    {
        let e = &self.entries;
        let n = e.len();
        let take = if limit < n {
            limit
        } else {
            n
        };
        let mut chosen: Vec<bool> = Vec::new();
        for k in 0..n
            invariant
                chosen@.len() == k,
                forall|i: int| 0 <= i < k ==> !chosen@[i],
        {
            chosen.push(false);
        }
        let mut out: Vec<String> = Vec::new();
        let ghost mut picked: Seq<int> = Seq::empty();
        for t in 0..take
            invariant
                n == e@.len(),
                take <= n,
                chosen@.len() == n,
                out@.len() == t,
                picked.len() == t,
                forall|i: int| 0 <= i < t ==> 0 <= #[trigger] picked[i] < n,
                forall|i: int| 0 <= i < t ==> (#[trigger] out@[i])@ == e@[picked[i]].0@,
                forall|k: int|
                    0 <= k < n ==> (#[trigger] chosen@[k] <==> exists|i: int|
                        0 <= i < t && picked[i] == k),
                forall|i: int, j: int|
                    0 <= i < j < t ==> idx_before(e@, #[trigger] picked[i], #[trigger] picked[j]),
                forall|i: int, k: int|
                    0 <= i < t && 0 <= k < n && !chosen@[k] ==> #[trigger] idx_before(
                        e@,
                        picked[i],
                        k,
                    ),
        {
            let mut best: usize = n;
            for k in 0..n
                invariant
                    n == e@.len(),
                    chosen@.len() == n,
                    best == n || (best < k && !chosen@[best as int]),
                    t < take <= n,
                    forall|k2: int|
                        0 <= k2 < k && !chosen@[k2] ==> best < n && (k2 == best || idx_before(
                            e@,
                            best as int,
                            k2,
                        )),
            {
                if !chosen[k] {
                    if best == n || e[k].1 > e[best].1 {
                        best = k;
                    }
                }
            }
            proof {
                // Fewer than n words are chosen, so an unchosen one exists.
                lemma_unchosen_exists(chosen@, picked, t as int, n as int);
            }
            assert(best < n);
            let ghost old_chosen = chosen@;
            let ghost old_picked = picked;
            chosen.set(best, true);
            out.push(e[best].0.clone());
            proof {
                picked = picked.push(best as int);
                assert forall|k: int| 0 <= k < n implies (#[trigger] chosen@[k] <==> exists|i: int|
                    0 <= i < t + 1 && picked[i] == k) by {
                    if k == best {
                        assert(picked[t as int] == k);
                    } else {
                        if exists|i: int| 0 <= i < t + 1 && picked[i] == k {
                            let i = choose|i: int| 0 <= i < t + 1 && picked[i] == k;
                            assert(old_picked[i] == k);
                        }
                        if old_chosen[k] {
                            let i = choose|i: int| 0 <= i < t && old_picked[i] == k;
                            assert(picked[i] == k);
                        }
                    }
                }
            }
        }
        proof {
            lemma_text_map(e@);
            lemma_index_order(e@);
            let m = self@;
            let r = out@.map_values(|s: String| s@);
            assert forall|i: int| 0 <= i < r.len() implies m.contains_key(#[trigger] r[i]) by {
                assert(r[i] == e@[picked[i]].0@);
            }
            assert forall|i: int, j: int| 0 <= i < j < r.len() implies ranks_before(
                m,
                #[trigger] r[i],
                #[trigger] r[j],
            ) by {
                assert(r[i] == e@[picked[i]].0@);
                assert(r[j] == e@[picked[j]].0@);
                assert(idx_before(e@, picked[i], picked[j]));
            }
            assert forall|w: Seq<char>, i: int|
                0 <= i < r.len() && #[trigger] m.contains_key(w) && !r.contains(w) implies ranks_before(
                m,
                #[trigger] r[i],
                w,
            ) by {
                let k = choose|k: int| 0 <= k < e@.len() && (#[trigger] e@[k]).0@ == w;
                if chosen@[k] {
                    let a = choose|a: int| 0 <= a < take && picked[a] == k;
                    assert(r[a] == w);
                }
                assert(r[i] == e@[picked[i]].0@);
                assert(idx_before(e@, picked[i], k));
            }
        }
        out
    }
}

/// In index terms over a sorted list: entry `a` ranks before entry `b`.
pub open spec fn idx_before(e: Seq<(String, u32)>, a: int, b: int) -> bool {
    e[a].1 > e[b].1 || (e[a].1 == e[b].1 && a < b)
}

/// In a sorted list, index order is word order, so index ranking is word ranking.
proof fn lemma_index_order(e: Seq<(String, u32)>)
    requires
        sorted_by_text(e),
    ensures
        forall|a: int, b: int|
            0 <= a < e.len() && 0 <= b < e.len() && #[trigger] idx_before(e, a, b) ==> ranks_before(
                text_map(e),
                e[a].0@,
                e[b].0@,
            ),
{
    lemma_text_map(e);
}

/// When fewer than `n` of `n` flags were set by `t` picks, one flag is clear.
proof fn lemma_unchosen_exists(chosen: Seq<bool>, picked: Seq<int>, t: int, n: int)
    requires
        chosen.len() == n,
        picked.len() == t,
        0 <= t < n,
        forall|k: int| 0 <= k < n ==> (#[trigger] chosen[k] <==> exists|i: int| 0 <= i < t && picked[i] == k),
    ensures
        exists|k: int| 0 <= k < n && !chosen[k],
{
    if forall|k: int| 0 <= k < n ==> chosen[k] {
        // Every index in 0..n is some picked[i], i < t < n: a pigeonhole clash.
        let f = |k: int| choose|i: int| 0 <= i < t && picked[i] == k;
        assert forall|k: int| 0 <= k < n implies 0 <= #[trigger] f(k) < t && picked[f(k)] == k by {
            assert(chosen[k]);
        }
        let s = vstd::set_lib::set_int_range(0, n);
        let img = vstd::set_lib::set_int_range(0, t);
        vstd::set_lib::lemma_int_range(0, n);
        vstd::set_lib::lemma_int_range(0, t);
        assert forall|a: int, b: int| s.contains(a) && s.contains(b) && #[trigger] f(a) == #[trigger] f(b) implies a
            == b by {
            assert(picked[f(a)] == a);
            assert(picked[f(b)] == b);
        }
        assert(vstd::relations::injective_on(f, s));
        let y = s.map(f);
        vstd::set_lib::lemma_map_size(s, y, f);
        assert forall|i: int| y.contains(i) implies img.contains(i) by {
            let k = choose|k: int| s.contains(k) && f(k) == i;
        }
        vstd::set_lib::lemma_len_subset(y, img);
    }
}

/// Two lists with the same keys and values stand for the same map.
proof fn lemma_same_text_map(a: Seq<(String, u32)>, b: Seq<(String, u32)>)
    requires
        a.len() == b.len(),
        forall|i: int| 0 <= i < a.len() ==> (#[trigger] a[i]).0@ == b[i].0@ && a[i].1 == b[i].1,
    ensures
        text_map(a) == text_map(b),
        sorted_by_text(b) ==> sorted_by_text(a),
    decreases a.len(),
{
    if a.len() > 0 {
        lemma_same_text_map(a.drop_last(), b.drop_last());
        assert(a.last() == a[a.len() - 1]);
    }
    if sorted_by_text(b) {
        assert forall|i: int, j: int| 0 <= i < j < a.len() implies seq_lt(
            #[trigger] a[i].0@,
            #[trigger] a[j].0@,
        ) by {
            assert(seq_lt(b[i].0@, b[j].0@));
        }
    }
}

} // verus!
