//! The first-key-bucketed candidate set a swipe decode scans: built once per
//! vocabulary, so a gesture is pruned to the words that begin near where the
//! finger started.
use crate::fold::{fold_char, fold_char_spec};
use crate::keymap::{key_map, keys_distinct, lemma_key_map, lemma_key_map_push, lemma_key_map_update};
use crate::text::{char_count, owned, same_text};
use vstd::prelude::*;

verus! {

/// The folded characters of `w` kept where `keep` says so.
pub open spec fn keys_kept(w: Seq<char>, keep: Seq<bool>) -> Seq<char>
    decreases w.len(),
{
    if w.len() == 0 {
        Seq::empty()
    } else if keep.last() {
        keys_kept(w.drop_last(), keep.drop_last()).push(fold_char_spec(w.last()))
    } else {
        keys_kept(w.drop_last(), keep.drop_last())
    }
}

/// The keys a swipe of `w` passes on a standard a-z letter layout: every
/// character folded to its base key, characters with no letter key skipped.
pub open spec fn letter_keys(w: Seq<char>) -> Seq<char>
    decreases w.len(),
{
    if w.len() == 0 {
        Seq::empty()
    } else {
        let k = fold_char_spec(w.last());
        if 'a' <= k <= 'z' {
            letter_keys(w.drop_last()).push(k)
        } else {
            letter_keys(w.drop_last())
        }
    }
}

/// A word can be a gesture: at least two characters and two letter keys.
pub open spec fn swipeable(w: Seq<char>) -> bool {
    w.len() >= 2 && letter_keys(w).len() >= 2
}

/// The entries bucketed under `k` in `m`, or none.
pub open spec fn bucket_of(m: Map<char, Seq<(Seq<char>, char)>>, k: char) -> Seq<(Seq<char>, char)> {
    if m.contains_key(k) {
        m[k]
    } else {
        Seq::empty()
    }
}

/// The index of `words`: each swipeable word, in input order, appended as
/// `(word, last key)` to the bucket of its first key.
pub open spec fn indexed(words: Seq<Seq<char>>) -> Map<char, Seq<(Seq<char>, char)>>
    decreases words.len(),
{
    if words.len() == 0 {
        Map::empty()
    } else {
        let m = indexed(words.drop_last());
        let w = words.last();
        if swipeable(w) {
            let keys = letter_keys(w);
            m.insert(keys[0], bucket_of(m, keys[0]).push((w, keys.last())))
        } else {
            m
        }
    }
}

/// Every entry of `m` is a swipeable word under its first key, with its last
/// key recorded.
pub open spec fn entries_consistent(m: Map<char, Seq<(Seq<char>, char)>>) -> bool {
    forall|k: char, i: int|
        #[trigger] m.contains_key(k) && 0 <= i < m[k].len() ==> {
            let e = #[trigger] m[k][i];
            &&& swipeable(e.0)
            &&& letter_keys(e.0)[0] == k
            &&& e.1 == letter_keys(e.0).last()
        }
}

/// `word` appears in some bucket of `m`.
pub open spec fn has_word(m: Map<char, Seq<(Seq<char>, char)>>, word: Seq<char>) -> bool {
    exists|k: char, i: int| #[trigger] m.contains_key(k) && 0 <= i < m[k].len() && (#[trigger] m[k][i]).0 == word
}

/// The keys a swipe of `word` passes through: every character folded to its
/// base key, characters for which `has_key` is false skipped.
pub fn key_path<F: Fn(char) -> bool>(word: &str, has_key: F) -> (out: Vec<char>)
    requires
        forall|c: char| has_key.requires((c,)),
    ensures
        exists|keep: Seq<bool>|
            #![trigger keys_kept(word@, keep)]
            keep.len() == word@.len() && (forall|i: int|
                0 <= i < word@.len() ==> has_key.ensures(
                    (fold_char_spec(#[trigger] word@[i]),),
                    keep[i],
                )) && out@ == keys_kept(word@, keep),
{
    let mut out: Vec<char> = Vec::new();
    let ghost mut keep: Seq<bool> = Seq::empty();
    for ch in it: word.chars()
        invariant
            forall|c: char| has_key.requires((c,)),
            it.seq() == word@,
            keep.len() == it.index(),
            forall|i: int|
                0 <= i < it.index() ==> has_key.ensures(
                    (fold_char_spec(#[trigger] word@[i]),),
                    keep[i],
                ),
            out@ == keys_kept(word@.take(it.index() as int), keep),
    {
        let ghost idx = it.index() as int;
        let k = fold_char(ch);
        let b = has_key(k);
        proof {
            let w2 = word@.take(idx + 1);
            assert(w2.drop_last() =~= word@.take(idx));
            assert(keep.push(b).drop_last() =~= keep);
            keep = keep.push(b);
        }
        if b {
            out.push(k);
        }
    }
    proof {
        assert(word@.take(word@.len() as int) =~= word@);
    }
    out
}

/// With the letter test as the key test, the kept keys are the letter keys.
proof fn lemma_letter_keys(w: Seq<char>, keep: Seq<bool>)
    requires
        keep.len() == w.len(),
        forall|i: int|
            0 <= i < w.len() ==> keep[i] == ('a' <= fold_char_spec(#[trigger] w[i]) <= 'z'),
    ensures
        keys_kept(w, keep) == letter_keys(w),
    decreases w.len(),
{
    if w.len() > 0 {
        let p = w.drop_last();
        let kp = keep.drop_last();
        assert forall|i: int| 0 <= i < p.len() implies kp[i] == ('a' <= fold_char_spec(
            #[trigger] p[i],
        ) <= 'z') by {
            assert(p[i] == w[i]);
        }
        lemma_letter_keys(p, kp);
        assert(keep.last() == keep[w.len() - 1]);
    }
}

/// The letter keys of `word` on a standard a-z layout.
fn letter_key_path(word: &str) -> (out: Vec<char>)
    ensures
        out@ == letter_keys(word@),
{
    let is_letter = |c: char| -> (r: bool)
        ensures
            r == ('a' <= c && c <= 'z'),
        { 'a' <= c && c <= 'z' };
    let out = key_path(word, is_letter);
    proof {
        let keep = choose|keep: Seq<bool>|
            #![trigger keys_kept(word@, keep)]
            keep.len() == word@.len() && (forall|i: int|
                0 <= i < word@.len() ==> is_letter.ensures(
                    (fold_char_spec(#[trigger] word@[i]),),
                    keep[i],
                )) && out@ == keys_kept(word@, keep);
        lemma_letter_keys(word@, keep);
    }
    out
}

/// One swipeable word: its last typeable key, for the end-of-gesture prune.
#[derive(Debug)]
pub struct Entry {
    word: String,
    last: char,
}

impl Entry {
    /// The entry as `(word, last key)`.
    pub closed spec fn view_pair(self) -> (Seq<char>, char) {
        (self.word@, self.last)
    }

    /// The indexed word.
    pub fn word(&self) -> (w: &str)
        ensures
            w@ == self.view_pair().0,
    {
        self.word.as_str()
    }

    /// The word's final typeable key.
    pub fn last(&self) -> (c: char)
        ensures
            c == self.view_pair().1,
    {
        self.last
    }
}

/// A bucket's entries as `(word, last key)` pairs.
pub open spec fn bucket_view(b: Vec<Entry>) -> Seq<(Seq<char>, char)> {
    b@.map_values(|e: Entry| e.view_pair())
}

/// The precomputed, first-key-bucketed candidate set.
#[derive(Debug)]
pub struct GestureIndex {
    by_first_key: Vec<(char, Vec<Entry>)>,
}

impl View for GestureIndex {
    type V = Map<char, Seq<(Seq<char>, char)>>;

    closed spec fn view(&self) -> Map<char, Seq<(Seq<char>, char)>> {
        key_map(self.by_first_key@).map_values(|b: Vec<Entry>| bucket_view(b))
    }
}

impl GestureIndex {
    /// Buckets have distinct keys and hold only consistent entries.
    pub closed spec fn wf(&self) -> bool {
        keys_distinct(self.by_first_key@) && entries_consistent(self@)
    }

    /// Bucket `words` by first typeable key (letters folded to their base
    /// key, non-letter characters dropped). Words with fewer than two keys
    /// cannot be a gesture and are skipped.
    pub fn build(words: &[&str]) -> (r: Self)
        ensures
            r.wf(),
            r@ == indexed(words@.map_values(|w: &str| w@)),
    {
        let ghost ws = words@.map_values(|w: &str| w@);
        let mut idx = GestureIndex { by_first_key: Vec::new() };
        proof {
            assert(idx@ =~= Map::<char, Seq<(Seq<char>, char)>>::empty());
            assert(ws.take(0) =~= Seq::<Seq<char>>::empty());
        }
        for n in 0..words.len()
            invariant
                ws == words@.map_values(|w: &str| w@),
                idx.wf(),
                idx@ == indexed(ws.take(n as int)),
        {
            let w = words[n];
            proof {
                assert(ws.take(n + 1).drop_last() =~= ws.take(n as int));
                assert(ws.take(n + 1).last() == w@);
            }
            if char_count(w) >= 2 {
                let keys = letter_key_path(w);
                if keys.len() >= 2 {
                    let first = keys[0];
                    let last = keys[keys.len() - 1];
                    idx.add(first, owned(w), last);
                }
            }
        }
        proof {
            assert(ws.take(words@.len() as int) =~= ws);
        }
        idx
    }

    /// Append `(word, last)` to the bucket of `first`.
    fn add(&mut self, first: char, word: String, last: char)
        requires
            old(self).wf(),
            swipeable(word@),
            letter_keys(word@)[0] == first,
            letter_keys(word@).last() == last,
        ensures
            final(self).wf(),
            final(self)@ == old(self)@.insert(
                first,
                bucket_of(old(self)@, first).push((word@, last)),
            ),
    {
        let ghost old_s = self.by_first_key@;
        let ghost old_m = self@;
        proof {
            lemma_key_map(old_s);
        }
        let mut i: usize = 0;
        while i < self.by_first_key.len()
            invariant
                self.by_first_key@ == old_s,
                old_m == old(self)@,
                old_m == key_map(old_s).map_values(|b: Vec<Entry>| bucket_view(b)),
                keys_distinct(old_s),
                entries_consistent(old_m),
                swipeable(word@),
                letter_keys(word@)[0] == first,
                letter_keys(word@).last() == last,
                i <= old_s.len(),
                forall|j: int| 0 <= j < i ==> old_s[j].0 != first,
            decreases old_s.len() - i,
        {
            if self.by_first_key[i].0 == first {
                let entry = Entry { word, last };
                self.by_first_key[i].1.push(entry);
                let ghost b = self.by_first_key@[i as int].1;
                assert(self.by_first_key@ == old_s.update(i as int, (old_s[i as int].0, b)));
                proof {
                    lemma_key_map_update(old_s, i as int, b);
                    assert(bucket_view(b) =~= bucket_view(old_s[i as int].1).push((word@, last)));
                    lemma_key_map(old_s);
                    assert(old_s[i as int].0 == first);
                    assert(key_map(old_s).contains_key(first));
                    assert(key_map(old_s)[first] == old_s[i as int].1);
                    assert(old_m.contains_key(first));
                    assert(bucket_of(old_m, first) == bucket_view(old_s[i as int].1));
                    assert(key_map(self.by_first_key@) == key_map(old_s).insert(first, b));
                    assert(self@ == key_map(old_s).insert(first, b).map_values(|b: Vec<Entry>| bucket_view(b)));
                    assert(self@ =~= old_m.insert(first, bucket_of(old_m, first).push((word@, last))));
                    self.lemma_consistent_after(old_m, first, word@, last);
                }
                return;
            }
            i = i + 1;
        }
        let mut b: Vec<Entry> = Vec::new();
        b.push(Entry { word, last });
        proof {
            assert(!key_map(old_s).contains_key(first)) by {
                if key_map(old_s).contains_key(first) {
                    let j = choose|j: int| 0 <= j < old_s.len() && (#[trigger] old_s[j]).0 == first;
                }
            }
            lemma_key_map_push(old_s, first, b);
        }
        self.by_first_key.push((first, b));
        proof {
            assert(bucket_view(b) =~= seq![(word@, last)]);
            assert(bucket_of(old_m, first) =~= Seq::<(Seq<char>, char)>::empty());
            assert(self@ =~= old_m.insert(first, bucket_of(old_m, first).push((word@, last))));
            self.lemma_consistent_after(old_m, first, word@, last);
        }
    }

    /// Adding a consistent entry keeps the index consistent.
    proof fn lemma_consistent_after(
        &self,
        old_m: Map<char, Seq<(Seq<char>, char)>>,
        first: char,
        word: Seq<char>,
        last: char,
    )
        requires
            entries_consistent(old_m),
            self@ == old_m.insert(first, bucket_of(old_m, first).push((word, last))),
            swipeable(word),
            letter_keys(word)[0] == first,
            letter_keys(word).last() == last,
        ensures
            entries_consistent(self@),
    {
        let m = self@;
        assert forall|k: char, i: int| #[trigger] m.contains_key(k) && 0 <= i < m[k].len() implies {
            let e = #[trigger] m[k][i];
            &&& swipeable(e.0)
            &&& letter_keys(e.0)[0] == k
            &&& e.1 == letter_keys(e.0).last()
        } by {
            if k == first && i < bucket_of(old_m, first).len() {
                assert(m[k][i] == old_m[k][i]);
            } else if k != first {
                assert(m[k] == old_m[k]);
            }
        }
    }

    /// `true` when no word is indexed.
    pub fn is_empty(&self) -> (r: bool)
        requires
            self.wf(),
        ensures
            r == (self@.dom().len() == 0),
    {
        proof {
            lemma_key_map(self.by_first_key@);
            assert(self@.dom() =~= key_map(self.by_first_key@).dom());
        }
        self.by_first_key.len() == 0
    }

    /// The candidate entries bucketed under `first_key` (empty if none).
    pub fn bucket(&self, first_key: char) -> (r: &[Entry])
        requires
            self.wf(),
        ensures
            r@.map_values(|e: Entry| e.view_pair()) == bucket_of(self@, first_key),
    {
        proof {
            lemma_key_map(self.by_first_key@);
        }
        let mut i: usize = 0;
        while i < self.by_first_key.len()
            invariant
                i <= self.by_first_key@.len(),
                keys_distinct(self.by_first_key@),
                forall|j: int| 0 <= j < i ==> self.by_first_key@[j].0 != first_key,
            decreases self.by_first_key@.len() - i,
        {
            if self.by_first_key[i].0 == first_key {
                let r = self.by_first_key[i].1.as_slice();
                proof {
                    lemma_key_map(self.by_first_key@);
                    assert(self@.contains_key(first_key));
                    assert(self@[first_key] == bucket_view(self.by_first_key@[i as int].1));
                    assert(r@ == self.by_first_key@[i as int].1@);
                }
                return r;
            }
            i = i + 1;
        }
        proof {
            if key_map(self.by_first_key@).contains_key(first_key) {
                let j = choose|j: int|
                    0 <= j < self.by_first_key@.len() && (#[trigger] self.by_first_key@[j]).0 == first_key;
            }
            assert(bucket_of(self@, first_key) =~= Seq::<(Seq<char>, char)>::empty());
        }
        let empty: &[Entry] = &[];
        assert(empty@.map_values(|e: Entry| e.view_pair()) =~= Seq::<(Seq<char>, char)>::empty());
        empty
    }

    /// The words bucketed under `first_key`, in indexing order.
    pub fn words_for_first(&self, first_key: char) -> (r: Vec<String>)
        requires
            self.wf(),
        ensures
            r@.map_values(|s: String| s@) == bucket_of(self@, first_key).map_values(
                |e: (Seq<char>, char)| e.0,
            ),
    {
        let b = self.bucket(first_key);
        let mut out: Vec<String> = Vec::new();
        for i in 0..b.len()
            invariant
                b@.map_values(|e: Entry| e.view_pair()) == bucket_of(self@, first_key),
                out@.len() == i,
                forall|j: int| 0 <= j < i ==> (#[trigger] out@[j])@ == b@[j].view_pair().0,
        {
            out.push(owned(b[i].word()));
        }
        proof {
            assert(out@.map_values(|s: String| s@) =~= bucket_of(self@, first_key).map_values(
                |e: (Seq<char>, char)| e.0,
            ));
        }
        out
    }

    /// The recorded last key for `word`, or `None` if it was never indexed.
    pub fn last_key_of(&self, word: &str) -> (r: Option<char>)
        requires
            self.wf(),
        ensures
            match r {
                Some(l) => has_word(self@, word@) && l == letter_keys(word@).last(),
                None => !has_word(self@, word@),
            },
    {
        proof {
            lemma_key_map(self.by_first_key@);
        }
        let n = self.by_first_key.len();
        for i in 0..n
            invariant
                n == self.by_first_key@.len(),
                self.wf(),
                forall|a: int, j: int|
                    0 <= a < i && 0 <= j < self.by_first_key@[a].1@.len() ==> (
                    #[trigger] self.by_first_key@[a].1@[j]).word@ != word@,
        {
            let bucket = &self.by_first_key[i].1;
            for j in 0..bucket.len()
                invariant
                    bucket == &self.by_first_key@[i as int].1,
                    self.wf(),
                    i < n == self.by_first_key@.len(),
                    forall|a: int, j2: int|
                        0 <= a < i && 0 <= j2 < self.by_first_key@[a].1@.len() ==> (
                        #[trigger] self.by_first_key@[a].1@[j2]).word@ != word@,
                    forall|j2: int| 0 <= j2 < j ==> (#[trigger] bucket@[j2]).word@ != word@,
            {
                if same_text(bucket[j].word.as_str(), word) {
                    proof {
                        lemma_key_map(self.by_first_key@);
                        let k = self.by_first_key@[i as int].0;
                        assert(self@.contains_key(k));
                        assert(self@[k] == bucket_view(*bucket));
                        assert(self@[k][j as int] == bucket@[j as int].view_pair());
                    }
                    return Some(bucket[j].last);
                }
            }
        }
        proof {
            if has_word(self@, word@) {
                let (k, j) = choose|k: char, j: int|
                    #[trigger] self@.contains_key(k) && 0 <= j < self@[k].len() && (
                    #[trigger] self@[k][j]).0 == word@;
                let a = choose|a: int| 0 <= a < self.by_first_key@.len() && (#[trigger] self.by_first_key@[a]).0 == k;
                assert(self@[k] == bucket_view(self.by_first_key@[a].1));
                assert(self.by_first_key@[a].1@[j].word@ == word@);
            }
        }
        None
    }
}

} // verus!
