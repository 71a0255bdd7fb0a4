//! Bounded per-user word <-> index map.
//!
//! [`Vocab`] interns learnable words into stable small integer indices. Two
//! indices are reserved and never assigned to a word: [`UNK`] (0, also the
//! answer for any unknown or non-learnable token) and [`BOS`] (1, a padding /
//! beginning-of-sequence marker). Interning is capacity-bounded: once the
//! ceiling is reached, a new word evicts the least-frequent learned word (ties
//! broken by smallest index) and reuses its index.
use crate::assoc::{
    find_text, lemma_text_map, lemma_text_map_insert, lemma_text_map_remove,
    lemma_text_map_update, sorted_by_text, text_map,
};
use crate::context::{is_learnable, learnable};
use crate::counts::bumped;
use crate::text::owned;
use vstd::prelude::*;

verus! {

/// Reserved index for out-of-vocabulary / non-learnable tokens.
pub const UNK: usize = 0;

/// Reserved index for the beginning-of-sequence / padding marker.
pub const BOS: usize = 1;

/// The smallest index a learned word may ever be assigned.
pub const FIRST_LEARNED_INDEX: usize = 2;

/// The real ceiling on the number of learned words (excludes `UNK`/`BOS`).
pub const MAX_VOCAB: usize = 2000;

/// `(freq, index)` of `a` is lexicographically at most that of `b`.
pub open spec fn evicts_before(a: (usize, u32), b: (usize, u32)) -> bool {
    a.1 < b.1 || (a.1 == b.1 && a.0 <= b.0)
}

/// Eviction order over `(index, frequency)`: a lower frequency goes first
/// whatever the index, and between equal frequencies the smaller index.
pub proof fn eviction_order_is_frequency_then_index(a: (usize, u32), b: (usize, u32))
    ensures
        a.1 < b.1 ==> evicts_before(a, b),
        a.1 > b.1 ==> !evicts_before(a, b),
        a.1 == b.1 ==> (evicts_before(a, b) <==> a.0 <= b.0),
{
}

/// `w` is the entry to evict from `m`: the least frequent, ties by smallest
/// index.
pub open spec fn is_victim(m: Map<Seq<char>, (usize, u32)>, w: Seq<char>) -> bool {
    &&& m.contains_key(w)
    &&& forall|w2: Seq<char>| #[trigger] m.contains_key(w2) ==> evicts_before(m[w], m[w2])
}

/// The map after `word` is interned into `m` under ceiling `ceiling`, with the
/// index returned: `None` when `word` is not learned at all.
pub open spec fn interned(
    m: Map<Seq<char>, (usize, u32)>,
    ceiling: nat,
    word: Seq<char>,
    r: usize,
    m2: Map<Seq<char>, (usize, u32)>,
) -> bool {
    if !learnable(word) {
        r == UNK && m2 == m
    } else if m.contains_key(word) {
        r == m[word].0 && m2 == m.insert(word, (r, bumped(m[word].1)))
    } else if m.dom().len() < ceiling {
        r == FIRST_LEARNED_INDEX + m.dom().len() && m2 == m.insert(word, (r, 1u32))
    } else if m.dom().len() == 0 {
        r == FIRST_LEARNED_INDEX && m2 == m.insert(word, (r, 1u32))
    } else {
        exists|v: Seq<char>|
            #[trigger] is_victim(m, v) && r == m[v].0 && m2 == m.remove(v).insert(word, (r, 1u32))
    }
}

/// Some learned word of `m` holds index `i`.
pub open spec fn names_index(m: Map<Seq<char>, (usize, u32)>, i: usize) -> bool {
    exists|w: Seq<char>| #[trigger] m.contains_key(w) && m[w].0 == i
}

/// `table` lists the words of `m` by index: every word's index lies in
/// `2 .. 2 + |table|` and the table holds the word there, and every table slot
/// holds a word of `m` with that slot's index.
pub open spec fn index_table(m: Map<Seq<char>, (usize, u32)>, table: Seq<String>) -> bool {
    &&& forall|w: Seq<char>|
        #[trigger] m.contains_key(w) ==> {
            &&& FIRST_LEARNED_INDEX <= m[w].0 < FIRST_LEARNED_INDEX + table.len()
            &&& table[m[w].0 - FIRST_LEARNED_INDEX]@ == w
        }
    &&& forall|p: int|
        0 <= p < table.len() ==> {
            &&& m.contains_key((#[trigger] table[p])@)
            &&& m[table[p]@].0 == FIRST_LEARNED_INDEX + p
        }
}

/// A bounded per-user word <-> index map.
#[derive(Debug, Clone)]
pub struct Vocab {
    /// word -> (index, frequency), in ascending word order.
    by_word: Vec<(String, (usize, u32))>,
    /// The word at index `FIRST_LEARNED_INDEX + p` sits at position `p`.
    by_index: Vec<String>,
    /// Ceiling on the number of learned entries.
    learned_ceiling: usize,
}

impl Vocab {
    /// `word -> (index, frequency)` of every learned word.
    pub closed spec fn entries_view(&self) -> Map<Seq<char>, (usize, u32)> {
        text_map(self.by_word@)
    }

    /// `r` lists every learned entry once, as `(word, index, frequency)`, in
    /// ascending word order.
    pub open spec fn listed(&self, r: Seq<(String, usize, u32)>) -> bool {
        &&& r.len() == self.entries_view().dom().len()
        &&& forall|i: int|
            0 <= i < r.len() ==> {
                &&& self.entries_view().contains_key((#[trigger] r[i]).0@)
                &&& self.entries_view()[r[i].0@] == (r[i].1, r[i].2)
            }
        &&& forall|i: int, j: int|
            0 <= i < j < r.len() ==> crate::text::seq_lt((#[trigger] r[i]).0@, (#[trigger] r[j]).0@)
    }

    /// Two different learned words never share an index.
    pub proof fn learned_indices_are_distinct(&self, a: Seq<char>, b: Seq<char>)
        requires
            self.wf(),
            self.entries_view().contains_key(a),
            self.entries_view().contains_key(b),
            a != b,
        ensures
            self.entries_view()[a].0 != self.entries_view()[b].0,
            self.entries_view()[a].0 >= FIRST_LEARNED_INDEX,
    {
    }

    /// A listing names every learned word.
    pub proof fn lemma_listed_words(&self, r: Seq<(String, usize, u32)>)
        requires
            self.wf(),
            self.listed(r),
        ensures
            forall|w: Seq<char>| #[trigger] self.entries_view().contains_key(w) <==> exists|i: int|
                0 <= i < r.len() && r[i].0@ == w,
    {
        lemma_text_map(self.by_word@);
        let m = self.entries_view();
        let ws = r.map_values(|e: (String, usize, u32)| e.0@);
        assert(ws.no_duplicates()) by {
            assert forall|i: int, j: int| 0 <= i < ws.len() && 0 <= j < ws.len() && i != j implies ws[i] != ws[j] by {
                if i < j {
                    assert(crate::text::seq_lt(r[i].0@, r[j].0@));
                    crate::text::lemma_seq_lt_irreflexive(ws[i]);
                } else {
                    assert(crate::text::seq_lt(r[j].0@, r[i].0@));
                    crate::text::lemma_seq_lt_irreflexive(ws[j]);
                }
            }
        }
        ws.unique_seq_to_set();
        assert(ws.to_set().subset_of(m.dom())) by {
            assert forall|w: Seq<char>| ws.to_set().contains(w) implies m.dom().contains(w) by {
                let i = choose|i: int| 0 <= i < ws.len() && ws[i] == w;
                assert(m.contains_key(r[i].0@));
            }
        }
        vstd::set_lib::lemma_subset_equality(ws.to_set(), m.dom());
        assert forall|w: Seq<char>| #[trigger] m.contains_key(w) <==> exists|i: int| 0 <= i < r.len() && r[i].0@ == w by {
            if m.contains_key(w) {
                assert(ws.to_set().contains(w));
                let i = choose|i: int| 0 <= i < ws.len() && ws[i] == w;
                assert(r[i].0@ == w);
            }
            if exists|i: int| 0 <= i < r.len() && r[i].0@ == w {
                let i = choose|i: int| 0 <= i < r.len() && r[i].0@ == w;
                assert(m.contains_key(r[i].0@));
            }
        }
    }

    /// Every listed word is learnable.
    pub proof fn lemma_listed_learnable(&self, r: Seq<(String, usize, u32)>, i: int)
        requires
            self.wf(),
            self.listed(r),
            0 <= i < r.len(),
        ensures
            learnable(r[i].0@),
    {
        assert(self.entries_view().contains_key(r[i].0@));
    }

    /// The ceiling on learned words.
    pub closed spec fn ceiling(&self) -> nat {
        self.learned_ceiling as nat
    }

    /// The learned words hold exactly the indices `2 .. 2 + len`, each once,
    /// and the reverse table agrees with the forward one.
    pub closed spec fn wf(&self) -> bool {
        &&& sorted_by_text(self.by_word@)
        &&& self.by_index@.len() == self.by_word@.len()
        &&& self.learned_ceiling <= usize::MAX - 2
        &&& (self.by_word@.len() <= self.learned_ceiling || self.by_word@.len() <= 1)
        &&& index_table(text_map(self.by_word@), self.by_index@)
        &&& forall|w: Seq<char>| #[trigger] text_map(self.by_word@).contains_key(w) ==> learnable(w)
    }

    /// A fresh, empty vocabulary with the real ceiling ([`MAX_VOCAB`]).
    pub fn new() -> (r: Self)
        ensures
            r.wf(),
            r.entries_view() == Map::<Seq<char>, (usize, u32)>::empty(),
            r.ceiling() == MAX_VOCAB,
    {
        Vocab { by_word: Vec::new(), by_index: Vec::new(), learned_ceiling: MAX_VOCAB }
    }

    /// A vocabulary with a small ceiling, so eviction can be exercised without
    /// registering thousands of words.
    pub fn with_capacity_for_test(learned_ceiling: usize) -> (r: Self)
        requires
            learned_ceiling <= usize::MAX - 2,
        ensures
            r.wf(),
            r.entries_view() == Map::<Seq<char>, (usize, u32)>::empty(),
            r.ceiling() == learned_ceiling,
    {
        Vocab { by_word: Vec::new(), by_index: Vec::new(), learned_ceiling }
    }

    /// The number of currently learned words.
    pub fn len(&self) -> (n: usize)
        requires
            self.wf(),
        ensures
            n == self.entries_view().dom().len(),
            self.entries_view().dom().finite(),
    {
        proof {
            lemma_text_map(self.by_word@);
        }
        self.by_word.len()
    }

    /// `true` if no word has been learned yet.
    pub fn is_empty(&self) -> (r: bool)
        requires
            self.wf(),
        ensures
            r == (self.entries_view().dom().len() == 0),
    {
        self.len() == 0
    }

    /// `word`'s index without registering it; [`UNK`] if absent.
    pub fn index_of(&self, word: &str) -> (r: usize)
        requires
            self.wf(),
        ensures
            r == if self.entries_view().contains_key(word@) {
                self.entries_view()[word@].0
            } else {
                UNK
            },
    {
        match find_text(&self.by_word, word) {
            Ok(i) => self.by_word[i].1.0,
            Err(_) => UNK,
        }
    }

    /// The word registered at `index`, if any. The reserved [`UNK`]/[`BOS`]
    /// indices never resolve to a word.
    pub fn word_of(&self, index: usize) -> (r: Option<&str>)
        requires
            self.wf(),
        ensures
            match r {
                Some(w) => index != UNK && index != BOS && self.entries_view().contains_key(w@)
                    && self.entries_view()[w@].0 == index,
                None => index == UNK || index == BOS || !(exists|w: Seq<char>|
                    #[trigger] self.entries_view().contains_key(w) && self.entries_view()[w].0
                        == index),
            },
    {
        if index == UNK || index == BOS {
            return None;
        }
        let p = index - FIRST_LEARNED_INDEX;
        proof {
            lemma_text_map(self.by_word@);
        }
        if p < self.by_index.len() {
            Some(self.by_index[p].as_str())
        } else {
            None
        }
    }

    /// Every learned `(word, index, frequency)`, in ascending word order.
    pub fn entries(&self) -> (r: Vec<(String, usize, u32)>)
        requires
            self.wf(),
        ensures
            self.listed(r@),
    {
        proof {
            lemma_text_map(self.by_word@);
        }
        let mut out: Vec<(String, usize, u32)> = Vec::new();
        let n = self.by_word.len();
        for k in 0..n
            invariant
                n == self.by_word@.len(),
                out@.len() == k,
                forall|i: int|
                    0 <= i < k ==> (#[trigger] out@[i]).0@ == self.by_word@[i].0@ && out@[i].1
                        == self.by_word@[i].1.0 && out@[i].2 == self.by_word@[i].1.1,
        {
            let w = self.by_word[k].0.clone();
            out.push((w, self.by_word[k].1.0, self.by_word[k].1.1));
        }
        proof {
            assert forall|i: int, j: int| 0 <= i < j < out@.len() implies crate::text::seq_lt(
                (#[trigger] out@[i]).0@,
                (#[trigger] out@[j]).0@,
            ) by {
                assert(crate::text::seq_lt(self.by_word@[i].0@, self.by_word@[j].0@));
            }
        }
        out
    }

    /// Intern `word`, returning its stable index. A non-learnable token is
    /// never registered and yields [`UNK`]; a known word has its frequency
    /// bumped; a new word past the ceiling evicts the least-frequent learned
    /// word (ties by smallest index) and reuses its index.
    pub fn intern(&mut self, word: &str) -> (r: usize)
        requires
            old(self).wf(),
        ensures
            final(self).wf(),
            final(self).ceiling() == old(self).ceiling(),
            interned(
                old(self).entries_view(),
                old(self).ceiling(),
                word@,
                r,
                final(self).entries_view(),
            ),
            learnable(word@) ==> FIRST_LEARNED_INDEX <= r && final(self).entries_view().contains_key(word@)
                && final(self).entries_view()[word@].0 == r,
    {
        proof {
            lemma_text_map(self.by_word@);
        }
        if !is_learnable(word) {
            return UNK;
        }
        let ghost m = self.entries_view();
        let ghost c = self.ceiling();
        let r = match find_text(&self.by_word, word) {
            Ok(i) => {
                let (index, freq) = self.by_word[i].1;
                let ghost old_w = self.by_word@;
                let ghost old_x = self.by_index@;
                let next = freq.saturating_add(1);
                proof {
                    lemma_text_map_update(old_w, i as int, (index, next));
                }
                self.by_word[i].1 = (index, next);
                assert(self.by_word@ == old_w.update(i as int, (old_w[i as int].0, (index, next))));
                proof {
                    let m2 = self.entries_view();
                    assert(m2 == m.insert(word@, (index, next)));
                    assert forall|w: Seq<char>| #[trigger] m2.contains_key(w) implies {
                        &&& FIRST_LEARNED_INDEX <= m2[w].0 < FIRST_LEARNED_INDEX + old_x.len()
                        &&& old_x[m2[w].0 - FIRST_LEARNED_INDEX]@ == w
                    } by {
                        assert(m.contains_key(w));
                    }
                    assert forall|p: int| 0 <= p < old_x.len() implies {
                        &&& m2.contains_key((#[trigger] old_x[p])@)
                        &&& m2[old_x[p]@].0 == FIRST_LEARNED_INDEX + p
                    } by {
                        assert(m.contains_key(old_x[p]@));
                    }
                }
                index
            },
            Err(j) => {
                let len = self.by_word.len();
                if len >= self.learned_ceiling {
                    self.replace_least_frequent(word, j)
                } else {
                    let index = FIRST_LEARNED_INDEX + len;
                    self.add_new(word, j, index);
                    index
                }
            },
        };
        proof {
            lemma_interned_word(m, c, word@, r, self.entries_view());
            assert(self.entries_view().contains_key(word@));
        }
        r
    }

    /// What `wf` promises of the learned entries: there are at most as many
    /// as the ceiling (or one, under a zero ceiling), each learned word is
    /// learnable and holds an index in `2 .. 2 + len`, no two words share an
    /// index, and every index of that range names a word.
    pub proof fn learned_index_facts(&self)
        requires
            self.wf(),
        ensures
            self.entries_view().dom().finite(),
            self.entries_view().dom().len() <= self.ceiling() || self.entries_view().dom().len() <= 1,
            forall|w: Seq<char>|
                #[trigger] self.entries_view().contains_key(w) ==> learnable(w) && FIRST_LEARNED_INDEX
                    <= self.entries_view()[w].0 < FIRST_LEARNED_INDEX + self.entries_view().dom().len(),
            forall|a: Seq<char>, b: Seq<char>|
                #[trigger] self.entries_view().contains_key(a) && #[trigger] self.entries_view().contains_key(b)
                    && a != b ==> self.entries_view()[a].0 != self.entries_view()[b].0,
            forall|i: usize|
                FIRST_LEARNED_INDEX <= i < FIRST_LEARNED_INDEX + self.entries_view().dom().len() ==> #[trigger] names_index(
                    self.entries_view(),
                    i,
                ),
    {
        lemma_text_map(self.by_word@);
        let m = self.entries_view();
        let x = self.by_index@;
        assert forall|i: usize|
            FIRST_LEARNED_INDEX <= i < FIRST_LEARNED_INDEX + m.dom().len() implies #[trigger] names_index(m, i) by {
            let p = i - FIRST_LEARNED_INDEX;
            assert(m.contains_key(x[p]@));
        }
    }

    /// Register a new word at sorted position `j` under the next free index.
    fn add_new(&mut self, word: &str, j: usize, index: usize)
        requires
            old(self).wf(),
            learnable(word@),
            index == FIRST_LEARNED_INDEX + old(self).by_word@.len(),
            old(self).by_word@.len() < old(self).learned_ceiling,
            j <= old(self).by_word@.len(),
            forall|i: int| 0 <= i < j ==> crate::text::seq_lt((#[trigger] old(self).by_word@[i]).0@, word@),
            forall|i: int|
                j <= i < old(self).by_word@.len() ==> crate::text::seq_lt(
                    word@,
                    (#[trigger] old(self).by_word@[i]).0@,
                ),
        ensures
            final(self).wf(),
            final(self).learned_ceiling == old(self).learned_ceiling,
            final(self).entries_view() == old(self).entries_view().insert(word@, (index, 1u32)),
    {
        let ghost old_w = self.by_word@;
        let ghost old_x = self.by_index@;
        let key = owned(word);
        let key2 = owned(word);
        proof {
            lemma_text_map(old_w);
            lemma_text_map_insert(old_w, j as int, key, (index, 1u32));
        }
        self.by_word.insert(j, (key, (index, 1)));
        self.by_index.push(key2);
        proof {
            let m = text_map(old_w);
            let m2 = self.entries_view();
            let x = self.by_index@;
            assert(m2 == m.insert(word@, (index, 1u32)));
            assert(!m.contains_key(word@));
            assert forall|w: Seq<char>| #[trigger] m2.contains_key(w) implies {
                &&& FIRST_LEARNED_INDEX <= m2[w].0 < FIRST_LEARNED_INDEX + x.len()
                &&& x[m2[w].0 - FIRST_LEARNED_INDEX]@ == w
            } by {
                if w != word@ {
                    assert(m.contains_key(w));
                    assert(x[m[w].0 - FIRST_LEARNED_INDEX] == old_x[m[w].0 - FIRST_LEARNED_INDEX]);
                }
            }
            assert forall|p: int| 0 <= p < x.len() implies {
                &&& m2.contains_key((#[trigger] x[p])@)
                &&& m2[x[p]@].0 == FIRST_LEARNED_INDEX + p
            } by {
                if p < old_x.len() {
                    assert(x[p] == old_x[p]);
                    assert(m.contains_key(old_x[p]@));
                }
            }
        }
    }

    /// At the ceiling: evict the least-frequent word (ties by smallest index)
    /// and register `word` (sorted position `j` before eviction) under its
    /// freed index.
    fn replace_least_frequent(&mut self, word: &str, j: usize) -> (r: usize)
        requires
            old(self).wf(),
            learnable(word@),
            !old(self).entries_view().contains_key(word@),
            old(self).by_word@.len() >= old(self).learned_ceiling,
        ensures
            final(self).wf(),
            final(self).learned_ceiling == old(self).learned_ceiling,
            interned(
                old(self).entries_view(),
                old(self).ceiling(),
                word@,
                r,
                final(self).entries_view(),
            ),
    {
        let ghost m = self.entries_view();
        proof {
            lemma_text_map(self.by_word@);
        }
        let index = self.evict_least_frequent();
        let ghost m1 = self.entries_view();
        let len = self.by_word.len();
        match find_text(&self.by_word, word) {
            Ok(_) => {
                // The word is absent, and eviction only removed an entry.
                assert(false);
                index
            },
            Err(j2) => {
                let ghost old_w = self.by_word@;
                let ghost old_x = self.by_index@;
                let key = owned(word);
                let key2 = owned(word);
                proof {
                    lemma_text_map(old_w);
                    lemma_text_map_insert(old_w, j2 as int, key, (index, 1u32));
                }
                self.by_word.insert(j2, (key, (index, 1)));
                if index - FIRST_LEARNED_INDEX < self.by_index.len() {
                    self.by_index.set(index - FIRST_LEARNED_INDEX, key2);
                } else {
                    self.by_index.push(key2);
                }
                proof {
                    let m2 = self.entries_view();
                    let x = self.by_index@;
                    assert(m2 == m1.insert(word@, (index, 1u32)));
                    if m.dom().len() == 0 {
                        assert(m1 == m);
                        assert(old_x.len() == 0);
                        assert(x.len() == 1 && x[0]@ == word@);
                        assert forall|w: Seq<char>| #[trigger] m2.contains_key(w) implies {
                            &&& FIRST_LEARNED_INDEX <= m2[w].0 < FIRST_LEARNED_INDEX + x.len()
                            &&& x[m2[w].0 - FIRST_LEARNED_INDEX]@ == w
                        } by {
                            assert(w == word@);
                        }
                    } else {
                        let v = choose|v: Seq<char>|
                            #[trigger] is_victim(m, v) && index == m[v].0 && m1 == m.remove(v);
                        assert(x == old_x.update(index - FIRST_LEARNED_INDEX, key2));
                        assert forall|w: Seq<char>| #[trigger] m2.contains_key(w) implies {
                            &&& FIRST_LEARNED_INDEX <= m2[w].0 < FIRST_LEARNED_INDEX + x.len()
                            &&& x[m2[w].0 - FIRST_LEARNED_INDEX]@ == w
                        } by {
                            if w != word@ {
                                assert(m.contains_key(w) && w != v);
                                assert(m.contains_key(v));
                                if m[w].0 == index {
                                    assert(old_x[m[w].0 - FIRST_LEARNED_INDEX]@ == w);
                                    assert(old_x[m[v].0 - FIRST_LEARNED_INDEX]@ == v);
                                }
                            }
                        }
                        assert forall|p: int| 0 <= p < x.len() implies {
                            &&& m2.contains_key((#[trigger] x[p])@)
                            &&& m2[x[p]@].0 == FIRST_LEARNED_INDEX + p
                        } by {
                            if p != index - FIRST_LEARNED_INDEX {
                                assert(x[p] == old_x[p]);
                                assert(m.contains_key(old_x[p]@));
                                assert(old_x[p]@ != v);
                            }
                        }
                        assert(is_victim(m, v) && index == m[v].0 && m2 == m.remove(v).insert(
                            word@,
                            (index, 1u32),
                        ));
                    }
                }
                index
            },
        }
    }

    /// Remove the least-frequent learned entry (ties: smallest index) and
    /// return its now-free index. With nothing learned, nothing is removed
    /// and the first learned index is returned.
    fn evict_least_frequent(&mut self) -> (r: usize)
        requires
            old(self).wf(),
        ensures
            old(self).by_word@.len() == 0 ==> r == FIRST_LEARNED_INDEX && *final(self) == *old(self),
            old(self).by_word@.len() > 0 ==> exists|v: Seq<char>|
                #[trigger] is_victim(old(self).entries_view(), v) && r == old(
                    self,
                ).entries_view()[v].0 && final(self).entries_view() == old(
                    self,
                ).entries_view().remove(v),
            final(self).learned_ceiling == old(self).learned_ceiling,
            final(self).by_index@ == old(self).by_index@,
            sorted_by_text(final(self).by_word@),
            old(self).by_word@.len() > 0 ==> final(self).by_word@.len() == old(self).by_word@.len() - 1,
    {
        let n = self.by_word.len();
        if n == 0 {
            return FIRST_LEARNED_INDEX;
        }
        let mut best: usize = 0;
        for k in 1..n
            invariant
                n == self.by_word@.len(),
                *self == *old(self),
                best < k,
                forall|a: int|
                    0 <= a < k ==> evicts_before(
                        self.by_word@[best as int].1,
                        (#[trigger] self.by_word@[a]).1,
                    ),
        {
            let (ik, fk) = self.by_word[k].1;
            let (ib, fb) = self.by_word[best].1;
            if fk < fb || (fk == fb && ik < ib) {
                best = k;
            }
        }
        let (index, _) = self.by_word[best].1;
        let ghost old_w = self.by_word@;
        proof {
            lemma_text_map(old_w);
            lemma_text_map_remove(old_w, best as int);
            let v = old_w[best as int].0@;
            assert forall|w2: Seq<char>| #[trigger] text_map(old_w).contains_key(w2) implies evicts_before(
                text_map(old_w)[v],
                text_map(old_w)[w2],
            ) by {
                let a = choose|a: int| 0 <= a < old_w.len() && (#[trigger] old_w[a]).0@ == w2;
            }
            assert(is_victim(text_map(old_w), v));
        }
        self.by_word.remove(best);
        proof {
            let v = old_w[best as int].0@;
            assert(text_map(old_w) == old(self).entries_view());
            assert(is_victim(old(self).entries_view(), v) && index == old(self).entries_view()[v].0
                && self.entries_view() == old(self).entries_view().remove(v));
        }
        index
    }
}

/// A learnable word is present after interning, under the returned index.
proof fn lemma_interned_word(
    m: Map<Seq<char>, (usize, u32)>,
    ceiling: nat,
    w: Seq<char>,
    r: usize,
    m2: Map<Seq<char>, (usize, u32)>,
)
    requires
        interned(m, ceiling, w, r, m2),
        learnable(w),
    ensures
        m2.contains_key(w),
        m2[w].0 == r,
{
    if !m.contains_key(w) && m.dom().len() >= ceiling && m.dom().len() != 0 {
        let v = choose|v: Seq<char>|
            #[trigger] is_victim(m, v) && r == m[v].0 && m2 == m.remove(v).insert(w, (r, 1u32));
    }
}

/// Interning a word right after interning it returns the same index; a
/// learned word then only has its frequency bumped.
pub proof fn intern_is_stable(
    m: Map<Seq<char>, (usize, u32)>,
    ceiling: nat,
    w: Seq<char>,
    r1: usize,
    m1: Map<Seq<char>, (usize, u32)>,
    r2: usize,
    m2: Map<Seq<char>, (usize, u32)>,
)
    requires
        interned(m, ceiling, w, r1, m1),
        interned(m1, ceiling, w, r2, m2),
    ensures
        r2 == r1,
        learnable(w) ==> m1.contains_key(w) && m2 == m1.insert(w, (r1, bumped(m1[w].1))),
{
    if learnable(w) {
        if !m.contains_key(w) && m.dom().len() >= ceiling && m.dom().len() != 0 {
            let v = choose|v: Seq<char>|
                #[trigger] is_victim(m, v) && r1 == m[v].0 && m1 == m.remove(v).insert(w, (r1, 1u32));
        }
        assert(m1.contains_key(w) && m1[w].0 == r1);
    }
}

} // verus!
