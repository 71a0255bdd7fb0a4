//! `NestedCounts`: an ordered two-level count map `outer -> {inner -> count}`
//! (ascending keys at both levels, like nested `BTreeMap`s).
use crate::assoc::{
    find_text, lemma_text_map, lemma_text_map_insert, lemma_text_map_update, sorted_by_text,
    text_map,
};
use crate::counts::{bumped, count_in, WordCounts};
use crate::text::owned;
use vstd::prelude::*;

verus! {

/// The counts under `outer` in `m`, or no counts.
pub open spec fn followers(m: Map<Seq<char>, Map<Seq<char>, u32>>, outer: Seq<char>) -> Map<
    Seq<char>,
    u32,
> {
    if m.contains_key(outer) {
        m[outer]
    } else {
        Map::empty()
    }
}

/// The count of `inner` under `outer` in `m`, or `0`.
pub open spec fn pair_count(
    m: Map<Seq<char>, Map<Seq<char>, u32>>,
    outer: Seq<char>,
    inner: Seq<char>,
) -> u32 {
    count_in(followers(m, outer), inner)
}

/// A two-level count map.
#[derive(Debug, Clone, Default, PartialEq, Eq)]
pub struct NestedCounts {
    entries: Vec<(String, WordCounts)>,
}

impl View for NestedCounts {
    type V = Map<Seq<char>, Map<Seq<char>, u32>>;

    closed spec fn view(&self) -> Map<Seq<char>, Map<Seq<char>, u32>> {
        text_map(self.entries@).map_values(|w: WordCounts| w@)
    }
}

impl NestedCounts {
    /// Outer keys sorted, each inner map well formed.
    pub closed spec fn wf(&self) -> bool {
        &&& sorted_by_text(self.entries@)
        &&& forall|i: int| 0 <= i < self.entries@.len() ==> (#[trigger] self.entries@[i]).1.wf()
    }

    /// No counts.
    pub fn new() -> (r: Self)
        ensures
            r.wf(),
            r@ == Map::<Seq<char>, Map<Seq<char>, u32>>::empty(),
    {
        let r = NestedCounts { entries: Vec::new() };
        assert(r@ =~= Map::<Seq<char>, Map<Seq<char>, u32>>::empty());
        r
    }

    /// `true` when no outer key is present.
    pub fn is_empty(&self) -> (r: bool)
        requires
            self.wf(),
        ensures
            r == (self@ == Map::<Seq<char>, Map<Seq<char>, u32>>::empty()),
    {
        proof {
            lemma_text_map(self.entries@);
            if self.entries@.len() > 0 {
                assert(self@.contains_key(self.entries@[0].0@));
            } else {
                assert(self@ =~= Map::<Seq<char>, Map<Seq<char>, u32>>::empty());
            }
        }
        self.entries.len() == 0
    }

    /// The inner counts under `outer`, if any.
    pub fn inner_of(&self, outer: &str) -> (r: Option<&WordCounts>)
        requires
            self.wf(),
        ensures
            match r {
                Some(w) => self@.contains_key(outer@) && w.wf() && w@ == self@[outer@],
                None => !self@.contains_key(outer@) && followers(self@, outer@) == Map::<
                    Seq<char>,
                    u32,
                >::empty(),
            },
    {
        match find_text(&self.entries, outer) {
            Ok(i) => Some(&self.entries[i].1),
            Err(_) => {
                assert(followers(self@, outer@) =~= Map::<Seq<char>, u32>::empty());
                None
            },
        }
    }

    /// The count of `inner` under `outer`, or `0`.
    pub fn count_of(&self, outer: &str, inner: &str) -> (c: u32)
        requires
            self.wf(),
        ensures
            c == pair_count(self@, outer@, inner@),
    {
        match self.inner_of(outer) {
            Some(w) => w.count_of(inner),
            None => 0,
        }
    }

    /// Add one (saturating) to the count of `inner` under `outer`.
    pub fn bump(&mut self, outer: &str, inner: &str)
        requires
            old(self).wf(),
        ensures
            final(self).wf(),
            final(self)@ == old(self)@.insert(
                outer@,
                followers(old(self)@, outer@).insert(
                    inner@,
                    bumped(pair_count(old(self)@, outer@, inner@)),
                ),
            ),
    {
        let ghost old_m = self@;
        match find_text(&self.entries, outer) {
            Ok(i) => {
                let ghost old_f = self.entries@;
                proof {
                    lemma_text_map(old_f);
                }
                self.entries[i].1.bump(inner);
                let ghost w = self.entries@[i as int].1;
                assert(self.entries@ == old_f.update(i as int, (old_f[i as int].0, w)));
                proof {
                    lemma_text_map_update(old_f, i as int, w);
                    assert(self@ =~= old_m.insert(outer@, w@));
                }
            },
            Err(j) => {
                let mut w = WordCounts::new();
                w.bump(inner);
                let key = owned(outer);
                self.insert_new(j, key, w);
                proof {
                    assert(followers(old_m, outer@) =~= Map::<Seq<char>, u32>::empty());
                }
            },
        }
    }

    /// Set the count of `inner` under `outer` to `count`.
    pub fn set(&mut self, outer: String, inner: String, count: u32)
        requires
            old(self).wf(),
        ensures
            final(self).wf(),
            final(self)@ == old(self)@.insert(
                outer@,
                followers(old(self)@, outer@).insert(inner@, count),
            ),
    {
        let ghost old_m = self@;
        match find_text(&self.entries, outer.as_str()) {
            Ok(i) => {
                let ghost old_f = self.entries@;
                proof {
                    lemma_text_map(old_f);
                }
                self.entries[i].1.set(inner, count);
                let ghost w = self.entries@[i as int].1;
                assert(self.entries@ == old_f.update(i as int, (old_f[i as int].0, w)));
                proof {
                    lemma_text_map_update(old_f, i as int, w);
                    assert(self@ =~= old_m.insert(outer@, w@));
                }
            },
            Err(j) => {
                let mut w = WordCounts::new();
                w.set(inner, count);
                self.insert_new(j, outer, w);
                proof {
                    assert(followers(old_m, outer@) =~= Map::<Seq<char>, u32>::empty());
                }
            },
        }
    }

    /// Insert a new outer key at its sorted position `j`.
    fn insert_new(&mut self, j: usize, key: String, w: WordCounts)
        requires
            old(self).wf(),
            w.wf(),
            j <= old(self).entries@.len(),
            forall|i: int| 0 <= i < j ==> crate::text::seq_lt((#[trigger] old(self).entries@[i]).0@, key@),
            forall|i: int|
                j <= i < old(self).entries@.len() ==> crate::text::seq_lt(
                    key@,
                    (#[trigger] old(self).entries@[i]).0@,
                ),
        ensures
            final(self).wf(),
            final(self)@ == old(self)@.insert(key@, w@),
    {
        let ghost old_f = self.entries@;
        let ghost old_m = self@;
        proof {
            lemma_text_map_insert(old_f, j as int, key, w);
        }
        self.entries.insert(j, (key, w));
        proof {
            assert forall|a: int| 0 <= a < self.entries@.len() implies (
            #[trigger] self.entries@[a]).1.wf() by {
                if a < j {
                    assert(self.entries@[a] == old_f[a]);
                } else if a > j {
                    assert(self.entries@[a] == old_f[a - 1]);
                }
            }
            assert(self@ =~= old_m.insert(key@, w@));
        }
    }
}

} // verus!
