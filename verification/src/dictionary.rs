//! A compact, read-only per-language lexicon with exact, prefix,
//! accent-insensitive prefix and one-edit lookup, backed by an `fst` set.
//!
//! It carries no policy: it does not rank, learn, or decide whether to
//! autocorrect. Construction is the only fallible step; every query returns
//! plain data.
use crate::fold::{fold, fold_spec};
use crate::kernel::DictionaryError;
use crate::pair_sort::{lemma_multiset_map, pair_lt, pair_view, pairs_sorted, sort_pairs};
use crate::text::{
    chars_of, compare_char_vecs, compare_text, lemma_seq_lt_asymmetric, lemma_seq_lt_irreflexive,
    lemma_seq_lt_total, lemma_seq_lt_transitive, owned, seq_lt, string_from_chars, Order,
};
use fst::{Automaton, IntoStreamer};
use std::sync::Arc;
use vstd::pervasive::VecAdditionalExecFns;
use vstd::prelude::*;
use vstd::utf8::{decode_utf8, encode_utf8, valid_utf8};

verus! {

broadcast use {vstd::utf8::encode_utf8_valid_utf8, vstd::utf8::encode_utf8_decode_utf8};

#[verifier::external_type_specification]
#[verifier::external_body]
#[verifier::reject_recursive_types(D)]
pub struct ExFstSet<D>(fst::Set<D>);

#[verifier::external_type_specification]
#[verifier::external_body]
#[verifier::reject_recursive_types(W)]
pub struct ExFstSetBuilder<W>(fst::SetBuilder<W>);

#[verifier::external_type_specification]
#[verifier::external_body]
pub struct ExFstError(fst::Error);

/// The most completions [`Dictionary::prefix`] and
/// [`Dictionary::fold_prefix`] return for one query.
pub const MAX_COMPLETIONS: usize = 16;

/// The keys an `fst` set holds.
pub uninterp spec fn fst_keys(s: fst::Set<Vec<u8>>) -> Set<Seq<u8>>;

/// The keys inserted into an in-memory `fst` set builder, in insertion order.
pub uninterp spec fn builder_keys(b: fst::SetBuilder<Vec<u8>>) -> Seq<Seq<u8>>;

/// Lexicographic byte order, as slices of bytes compare.
pub open spec fn bytes_lt(a: Seq<u8>, b: Seq<u8>) -> bool
    decreases a.len(),
{
    if a.len() == 0 {
        b.len() > 0
    } else if b.len() == 0 {
        false
    } else if a[0] != b[0] {
        a[0] < b[0]
    } else {
        bytes_lt(a.drop_first(), b.drop_first())
    }
}

/// Byte order is lexicographic: a proper prefix comes first, and otherwise
/// the first position where the two differ decides.
pub proof fn byte_order_is_lexicographic(a: Seq<u8>, b: Seq<u8>, k: int)
    ensures
        k == a.len() && a.len() < b.len() && a == b.take(k) ==> bytes_lt(a, b),
        0 <= k < a.len() && k < b.len() && a.take(k) == b.take(k) && a[k] < b[k] ==> bytes_lt(a, b),
    decreases a.len(),
{
    if k == a.len() && a.len() < b.len() && a == b.take(k) && a.len() > 0 {
        assert(a[0] == b[0]);
        assert(a.drop_first() =~= b.drop_first().take(k - 1));
        byte_order_is_lexicographic(a.drop_first(), b.drop_first(), k - 1);
    }
    if 0 <= k < a.len() && k < b.len() && a.take(k) == b.take(k) && a[k] < b[k] && k > 0 {
        assert(a[0] == a.take(k)[0] && b[0] == b.take(k)[0]);
        assert(a.drop_first().take(k - 1) =~= a.take(k).drop_first());
        assert(b.drop_first().take(k - 1) =~= b.take(k).drop_first());
        assert(a.drop_first()[k - 1] == a[k] && b.drop_first()[k - 1] == b[k]);
        byte_order_is_lexicographic(a.drop_first(), b.drop_first(), k - 1);
    }
}

/// `p` is a prefix of `s`.
pub open spec fn is_prefix_of<T>(p: Seq<T>, s: Seq<T>) -> bool {
    p.len() <= s.len() && s.take(p.len() as int) == p
}

/// The keys of `keys` that begin with `p`.
pub open spec fn keys_with_prefix(keys: Set<Seq<u8>>, p: Seq<u8>) -> Set<Seq<u8>> {
    keys.filter(|k: Seq<u8>| is_prefix_of(p, k))
}

/// `l` lists the members of `s`, each once, in strictly increasing byte order.
pub open spec fn byte_listing(l: Seq<Seq<u8>>, s: Set<Seq<u8>>) -> bool {
    &&& forall|i: int, j: int| 0 <= i < j < l.len() ==> bytes_lt(#[trigger] l[i], #[trigger] l[j])
    &&& forall|k: Seq<u8>| #[trigger] s.contains(k) <==> l.contains(k)
}

/// The UTF-8 encodings of a list of words.
pub open spec fn encodings(ws: Seq<Seq<char>>) -> Seq<Seq<u8>> {
    ws.map_values(|w: Seq<char>| encode_utf8(w))
}

/// Word `i` of `ws` sorts, by bytes, before the word ahead of it.
pub open spec fn descends_at(ws: Seq<Seq<char>>, i: int) -> bool {
    bytes_lt(encode_utf8(ws[i]), encode_utf8(ws[i - 1]))
}

/// No word sorts, by bytes, before the word ahead of it.
pub open spec fn non_decreasing(ws: Seq<Seq<char>>) -> bool {
    forall|i: int| 0 < i < ws.len() ==> !#[trigger] descends_at(ws, i)
}

/// A word paired with its match-folded form, as the fold index keys it.
pub open spec fn fold_entry(w: Seq<char>) -> (Seq<char>, Seq<char>) {
    (fold_spec(w), w)
}

/// Some word of `ws` holds `c`.
pub open spec fn in_some_word(ws: Seq<Seq<char>>, c: char) -> bool {
    exists|i: int, j: int| 0 <= i < ws.len() && 0 <= j < ws[i].len() && #[trigger] ws[i][j] == c
}

/// Characters in strictly increasing order.
pub open spec fn chars_increasing(s: Seq<char>) -> bool {
    forall|i: int, j: int| 0 <= i < j < s.len() ==> (#[trigger] s[i]) < (#[trigger] s[j])
}

/// The spellings of the index entries whose folded form begins with `p`, in
/// index order.
pub open spec fn fold_matches(idx: Seq<(Seq<char>, Seq<char>)>, p: Seq<char>) -> Seq<Seq<char>>
    decreases idx.len(),
{
    if idx.len() == 0 {
        Seq::empty()
    } else {
        let r = fold_matches(idx.drop_last(), p);
        if is_prefix_of(p, idx.last().0) {
            r.push(idx.last().1)
        } else {
            r
        }
    }
}

/// The smaller of two lengths.
pub open spec fn capped(n: nat) -> nat {
    if n < MAX_COMPLETIONS {
        n
    } else {
        MAX_COMPLETIONS as nat
    }
}

/// `b` is one edit from `a`: one character deleted, two adjacent characters
/// swapped, one character replaced, or one character inserted.
pub open spec fn one_edit(a: Seq<char>, b: Seq<char>) -> bool {
    ||| exists|i: int| 0 <= i < a.len() && b == #[trigger] a.remove(i)
    ||| exists|i: int| 0 <= i < a.len() - 1 && b == #[trigger] swapped(a, i)
    ||| exists|i: int| 0 <= i < a.len() && b.len() == a.len() && b == #[trigger] a.update(i, b[i])
    ||| exists|i: int| 0 <= i <= a.len() && b.len() == a.len() + 1 && b == #[trigger] a.insert(i, b[i])
}

/// `a` with the characters at `i` and `i + 1` swapped.
pub open spec fn swapped(a: Seq<char>, i: int) -> Seq<char> {
    a.update(i, a[i + 1]).update(i + 1, a[i])
}

/// The views of a list of strings.
pub open spec fn texts(v: Seq<String>) -> Seq<Seq<char>> {
    v.map_values(|s: String| s@)
}

/// Texts in strictly increasing `str` order.
pub open spec fn texts_increasing(t: Seq<Seq<char>>) -> bool {
    forall|i: int, j: int| 0 <= i < j < t.len() ==> seq_lt(#[trigger] t[i], #[trigger] t[j])
}

/// The dictionary words one edit from `w`, other than `w` itself.
pub open spec fn neighbours(words: Set<Seq<char>>, w: Seq<char>) -> Set<Seq<char>> {
    words.filter(|x: Seq<char>| x != w && one_edit(w, x))
}

/// `SetBuilder::memory()`: an empty in-memory builder.
#[verifier::external_body]
fn builder_memory() -> (b: fst::SetBuilder<Vec<u8>>)
    ensures
        builder_keys(b) == Seq::<Seq<u8>>::empty(),
{
    fst::SetBuilder::memory()
}

/// `SetBuilder::insert` of a word's UTF-8 bytes. The source accepts a key
/// that is not below the last one inserted (equal keys are accepted and
/// collapse) and reports anything else as an error before touching the
/// builder; writing to memory cannot fail.
#[verifier::external_body]
fn builder_insert(b: &mut fst::SetBuilder<Vec<u8>>, word: &str) -> (r: Result<(), fst::Error>)
    ensures
        r is Ok <==> (builder_keys(*old(b)).len() == 0 || !bytes_lt(
            encode_utf8(word@),
            builder_keys(*old(b)).last(),
        )),
        r is Ok ==> builder_keys(*final(b)) == builder_keys(*old(b)).push(encode_utf8(word@)),
        r is Err ==> builder_keys(*final(b)) == builder_keys(*old(b)),
{
    b.insert(word)
}

/// `SetBuilder::into_set`: the set of the inserted keys.
#[verifier::external_body]
fn builder_into_set(b: fst::SetBuilder<Vec<u8>>) -> (s: fst::Set<Vec<u8>>)
    ensures
        fst_keys(s) == builder_keys(b).to_set(),
{
    b.into_set()
}

/// `Set::contains` of a word's UTF-8 bytes.
#[verifier::external_body]
fn set_contains(s: &fst::Set<Vec<u8>>, word: &str) -> (r: bool)
    ensures
        r == fst_keys(*s).contains(encode_utf8(word@)),
{
    s.contains(word)
}

/// `Set::search` with a `Str::starts_with` automaton, streamed into byte
/// strings: the keys beginning with the prefix's bytes, each once, in
/// lexicographic order (the order an `fst` stream yields).
#[verifier::external_body]
fn set_keys_with_prefix(s: &fst::Set<Vec<u8>>, prefix: &str) -> (r: Vec<Vec<u8>>)
    ensures
        byte_listing(
            r@.map_values(|k: Vec<u8>| k@),
            keys_with_prefix(fst_keys(*s), encode_utf8(prefix@)),
        ),
{
    s.search(fst::automaton::Str::new(prefix).starts_with()).into_stream().into_bytes()
}

/// `String::from_utf8_lossy`, owned: exact for valid UTF-8.
#[verifier::external_body]
fn lossy_text(bytes: &Vec<u8>) -> (r: String)
    ensures
        valid_utf8(bytes@) ==> r@ == decode_utf8(bytes@),
{
    String::from_utf8_lossy(bytes).into_owned()
}

/// A compact, read-only lexicon for a single language.
pub struct Dictionary {
    set: Arc<fst::Set<Vec<u8>>>,
    /// The distinct characters occurring in the lexicon, sorted: the
    /// substitution and insertion alphabet for one-edit lookup.
    alphabet: Vec<char>,
    /// `(folded, spelling)` pairs sorted by folded form, then spelling.
    folded: Arc<Vec<(String, String)>>,
    /// The words the lexicon was built from, in input order.
    inserted: Ghost<Seq<Seq<char>>>,
}

impl Dictionary {
    /// The words the lexicon was built from, in input order (duplicates kept).
    pub closed spec fn inserted(&self) -> Seq<Seq<char>> {
        self.inserted@
    }

    /// The keys of the backing set.
    closed spec fn keys(&self) -> Set<Seq<u8>> {
        fst_keys(*self.set)
    }

    /// The set of words.
    pub open spec fn words(&self) -> Set<Seq<char>> {
        self.inserted().to_set()
    }

    /// The accent-insensitive index as `(folded, spelling)` pairs, in order.
    pub closed spec fn index(&self) -> Seq<(Seq<char>, Seq<char>)> {
        self.folded@.map_values(|p: (String, String)| pair_view(p))
    }

    /// What [`Dictionary::fold_prefix`] answers for `p`: the first
    /// [`MAX_COMPLETIONS`] index spellings whose folded form begins with `p`.
    pub open spec fn fold_prefix_spec(&self, p: Seq<char>) -> Seq<Seq<char>> {
        fold_matches(self.index(), p).take(capped(fold_matches(self.index(), p).len()) as int)
    }

    /// The one-edit alphabet.
    pub closed spec fn alphabet(&self) -> Seq<char> {
        self.alphabet@
    }

    /// The set holds exactly the inserted words' bytes, the alphabet exactly
    /// their characters in order, and the index exactly their fold entries,
    /// sorted.
    pub closed spec fn wf(&self) -> bool {
        &&& fst_keys(*self.set) == encodings(self.inserted@).to_set()
        &&& chars_increasing(self.alphabet@)
        &&& forall|c: char| #[trigger] self.alphabet@.contains(c) <==> in_some_word(self.inserted@, c)
        &&& pairs_sorted(self.folded@)
        &&& self.index().to_multiset() == self.inserted@.map_values(|w: Seq<char>| fold_entry(w)).to_multiset()
    }

    /// The index is in non-decreasing `(folded, spelling)` order and holds
    /// one entry per inserted word.
    pub proof fn lemma_index(&self)
        requires
            self.wf(),
        ensures
            forall|i: int, j: int|
                0 <= i < j < self.index().len() ==> !pair_lt(#[trigger] self.index()[j], #[trigger] self.index()[i]),
            self.index().to_multiset() == self.inserted().map_values(|w: Seq<char>| fold_entry(w)).to_multiset(),
            chars_increasing(self.alphabet()),
            forall|c: char| #[trigger] self.alphabet().contains(c) <==> in_some_word(self.inserted(), c),
    {
        assert forall|i: int, j: int| 0 <= i < j < self.index().len() implies !pair_lt(
            #[trigger] self.index()[j],
            #[trigger] self.index()[i],
        ) by {
            assert(self.index()[i] == pair_view(self.folded@[i]));
            assert(self.index()[j] == pair_view(self.folded@[j]));
        }
    }

    /// Add the characters of `w` to a sorted, duplicate-free alphabet.
    fn extend_alphabet(alphabet: &mut Vec<char>, w: &str, ghost_ws: Ghost<Seq<Seq<char>>>)
        requires
            chars_increasing(old(alphabet)@),
            forall|c: char| #[trigger] old(alphabet)@.contains(c) <==> in_some_word(ghost_ws@, c),
        ensures
            chars_increasing(final(alphabet)@),
            forall|c: char| #[trigger] final(alphabet)@.contains(c) <==> in_some_word(ghost_ws@.push(w@), c),
    {
        let ghost ws = ghost_ws@;
        let ghost ws2 = ws.push(w@);
        let cs = chars_of(w);
        for j in 0..cs.len()
            invariant
                cs@ == w@,
                ws2 == ws.push(w@),
                chars_increasing(alphabet@),
                forall|c: char|
                    #[trigger] alphabet@.contains(c) <==> (in_some_word(ws, c) || exists|k: int|
                        0 <= k < j && w@[k] == c),
        {
            let c = cs[j];
            let mut pos: usize = 0;
            while pos < alphabet.len() && alphabet[pos] < c
                invariant
                    pos <= alphabet@.len(),
                    forall|t: int| 0 <= t < pos ==> alphabet@[t] < c,
                decreases alphabet@.len() - pos,
            {
                pos = pos + 1;
            }
            let ghost before = alphabet@;
            if pos == alphabet.len() || alphabet[pos] != c {
                alphabet.insert(pos, c);
                proof {
                    assert forall|a: int, b: int| 0 <= a < b < alphabet@.len() implies (
                    #[trigger] alphabet@[a]) < (#[trigger] alphabet@[b]) by {
                        if b < pos {
                            assert(alphabet@[a] == before[a] && alphabet@[b] == before[b]);
                        } else if b == pos {
                            assert(alphabet@[a] == before[a]);
                        } else if a < pos {
                            assert(alphabet@[a] == before[a] && alphabet@[b] == before[b - 1]);
                            assert(before[pos as int] > c || before[pos as int] == c || before[pos as int] < c);
                            assert(before[pos as int] >= c);
                            if a < pos {
                            }
                        } else if a == pos {
                            assert(alphabet@[b] == before[b - 1]);
                            assert(before[pos as int] >= c);
                        } else {
                            assert(alphabet@[a] == before[a - 1] && alphabet@[b] == before[b - 1]);
                        }
                    }
                }
            }
            proof {
                assert forall|x: char| #[trigger] alphabet@.contains(x) <==> (in_some_word(ws, x) || exists|k: int|
                    0 <= k < j + 1 && w@[k] == x) by {
                    if alphabet@.contains(x) {
                        let t = choose|t: int| 0 <= t < alphabet@.len() && alphabet@[t] == x;
                        if x != c {
                            if alphabet@.len() != before.len() {
                                if t < pos {
                                    assert(before[t] == x);
                                } else {
                                    assert(t != pos);
                                    assert(before[t - 1] == x);
                                }
                            } else {
                                assert(before[t] == x);
                            }
                            assert(before.contains(x));
                        } else {
                            assert(w@[j as int] == x);
                        }
                    }
                    if exists|k: int| 0 <= k < j + 1 && w@[k] == x {
                        let k = choose|k: int| 0 <= k < j + 1 && w@[k] == x;
                        if k == j {
                            if alphabet@.len() != before.len() {
                                assert(alphabet@[pos as int] == x);
                            } else {
                                assert(alphabet@[pos as int] == x);
                            }
                        } else {
                            assert(before.contains(x));
                            let t = choose|t: int| 0 <= t < before.len() && before[t] == x;
                            if alphabet@.len() != before.len() {
                                if t < pos {
                                    assert(alphabet@[t] == x);
                                } else {
                                    assert(alphabet@[t + 1] == x);
                                }
                            } else {
                                assert(alphabet@[t] == x);
                            }
                        }
                    }
                    if in_some_word(ws, x) {
                        assert(before.contains(x));
                        let t = choose|t: int| 0 <= t < before.len() && before[t] == x;
                        if alphabet@.len() != before.len() {
                            if t < pos {
                                assert(alphabet@[t] == x);
                            } else {
                                assert(alphabet@[t + 1] == x);
                            }
                        } else {
                            assert(alphabet@[t] == x);
                        }
                    }
                }
            }
        }
        proof {
            assert forall|x: char| #[trigger] alphabet@.contains(x) <==> in_some_word(ws2, x) by {
                if in_some_word(ws2, x) {
                    let (i, k) = choose|i: int, k: int|
                        0 <= i < ws2.len() && 0 <= k < ws2[i].len() && #[trigger] ws2[i][k] == x;
                    if i < ws.len() {
                        assert(ws[i][k] == x);
                    } else {
                        assert(w@[k] == x);
                    }
                }
                if in_some_word(ws, x) {
                    let (i, k) = choose|i: int, k: int|
                        0 <= i < ws.len() && 0 <= k < ws[i].len() && #[trigger] ws[i][k] == x;
                    assert(ws2[i][k] == x);
                }
                if exists|k: int| 0 <= k < w@.len() && w@[k] == x {
                    let k = choose|k: int| 0 <= k < w@.len() && w@[k] == x;
                    assert(ws2[ws.len() as int][k] == x);
                }
            }
        }
    }

    /// Build a dictionary from a word list in non-decreasing byte order.
    /// Adjacent duplicates are allowed and merged in the set; a word smaller
    /// than the one before it is [`DictionaryError::Unsorted`].
    pub fn from_sorted_words(words: &[&str]) -> (r: Result<Self, DictionaryError>)
        ensures
            match r {
                Ok(d) => non_decreasing(words@.map_values(|w: &str| w@)) && d.wf() && d.inserted()
                    == words@.map_values(|w: &str| w@),
                Err(e) => e == DictionaryError::Unsorted && !non_decreasing(
                    words@.map_values(|w: &str| w@),
                ),
            },
    {
        let ghost ws = words@.map_values(|w: &str| w@);
        let mut builder = builder_memory();
        let mut alphabet: Vec<char> = Vec::new();
        let mut folded: Vec<(String, String)> = Vec::new();
        proof {
            assert(ws.take(0) =~= Seq::<Seq<char>>::empty());
            assert(encodings(ws.take(0)) =~= builder_keys(builder));
            assert(folded@.map_values(|p: (String, String)| pair_view(p)) =~= ws.take(0).map_values(
                |w: Seq<char>| fold_entry(w),
            ));
        }
        for n in 0..words.len()
            invariant
                ws == words@.map_values(|w: &str| w@),
                builder_keys(builder) == encodings(ws.take(n as int)),
                non_decreasing(ws.take(n as int)),
                chars_increasing(alphabet@),
                forall|c: char| #[trigger] alphabet@.contains(c) <==> in_some_word(ws.take(n as int), c),
                folded@.map_values(|p: (String, String)| pair_view(p)) == ws.take(n as int).map_values(
                    |w: Seq<char>| fold_entry(w),
                ),
        {
            let w = words[n];
            let ghost t = ws.take(n as int);
            let ghost t1 = ws.take(n + 1);
            proof {
                assert(t1 =~= t.push(w@));
                assert(encodings(t1) =~= encodings(t).push(encode_utf8(w@)));
            }
            match builder_insert(&mut builder, w) {
                Ok(()) => {},
                Err(_) => {
                    proof {
                        assert(n > 0);
                        assert(builder_keys(builder).last() == encode_utf8(ws[n - 1]));
                        assert(descends_at(ws, n as int));
                    }
                    return Err(DictionaryError::Unsorted);
                },
            }
            proof {
                assert forall|i: int| 0 < i < t1.len() implies !#[trigger] descends_at(t1, i) by {
                    if i < n {
                        assert(t1[i] == t[i] && t1[i - 1] == t[i - 1]);
                        assert(!descends_at(t, i));
                    } else {
                        assert(builder_keys(builder).len() > 0);
                    }
                }
            }
            Self::extend_alphabet(&mut alphabet, w, Ghost(t));
            let key = fold(w);
            let orig = owned(w);
            let ghost fb = folded@;
            let ghost entry = pair_view((key, orig));
            assert(entry == fold_entry(w@));
            folded.push((key, orig));
            proof {
                assert(folded@.map_values(|p: (String, String)| pair_view(p)) =~= fb.map_values(
                    |p: (String, String)| pair_view(p),
                ).push(entry));
                assert(t1.map_values(|w: Seq<char>| fold_entry(w)) =~= t.map_values(
                    |w: Seq<char>| fold_entry(w),
                ).push(fold_entry(w@)));
                assert(folded@.map_values(|p: (String, String)| pair_view(p)) =~= t1.map_values(
                    |w: Seq<char>| fold_entry(w),
                ));
            }
        }
        proof {
            assert(ws.take(words@.len() as int) =~= ws);
        }
        let ghost unsorted = folded@;
        let sorted = sort_pairs(folded);
        proof {
            lemma_multiset_map(sorted@, unsorted, |p: (String, String)| pair_view(p));
        }
        let set = builder_into_set(builder);
        Ok(Dictionary {
            set: Arc::new(set),
            alphabet,
            folded: Arc::new(sorted),
            inserted: Ghost(ws),
        })
    }

    /// The set's keys are the words' encodings, so membership of a word's
    /// bytes is membership of the word.
    proof fn lemma_keys(&self, w: Seq<char>)
        requires
            self.wf(),
        ensures
            self.keys().contains(encode_utf8(w)) <==> self.words().contains(w),
    {
        let e = encodings(self.inserted@);
        if self.keys().contains(encode_utf8(w)) {
            assert(e.contains(encode_utf8(w)));
            let i = choose|i: int| 0 <= i < e.len() && e[i] == encode_utf8(w);
            assert(encode_utf8(self.inserted@[i]) == encode_utf8(w));
            assert(decode_utf8(encode_utf8(self.inserted@[i])) == self.inserted@[i]);
            assert(self.inserted@.contains(w));
        }
        if self.words().contains(w) {
            let i = choose|i: int| 0 <= i < self.inserted@.len() && self.inserted@[i] == w;
            assert(e[i] == encode_utf8(w));
            assert(e.contains(encode_utf8(w)));
        }
    }

    /// `true` if `word` is exactly present in the lexicon.
    pub fn contains(&self, word: &str) -> (r: bool)
        requires
            self.wf(),
        ensures
            r == self.words().contains(word@),
    {
        proof {
            self.lemma_keys(word@);
        }
        set_contains(&self.set, word)
    }

    /// Words that begin with `prefix` (by bytes), in byte order, capped at
    /// [`MAX_COMPLETIONS`]. An empty prefix matches every word.
    pub fn prefix(&self, prefix: &str) -> (r: Vec<String>)
        requires
            self.wf(),
        ensures
            exists|l: Seq<Seq<u8>>|
                #![trigger byte_listing(l, keys_with_prefix(encodings(self.inserted()).to_set(), encode_utf8(prefix@)))]
                byte_listing(l, keys_with_prefix(encodings(self.inserted()).to_set(), encode_utf8(prefix@)))
                    && r@.len() == capped(l.len()) && forall|i: int|
                    0 <= i < r@.len() ==> (#[trigger] r@[i])@ == decode_utf8(l[i]),
    {
        let keys = set_keys_with_prefix(&self.set, prefix);
        let ghost l = keys@.map_values(|k: Vec<u8>| k@);
        let mut out: Vec<String> = Vec::new();
        let mut i: usize = 0;
        while i < keys.len() && out.len() < MAX_COMPLETIONS
            invariant
                l == keys@.map_values(|k: Vec<u8>| k@),
                byte_listing(l, keys_with_prefix(fst_keys(*self.set), encode_utf8(prefix@))),
                fst_keys(*self.set) == encodings(self.inserted@).to_set(),
                i <= keys@.len(),
                out@.len() == i,
                i <= MAX_COMPLETIONS,
                forall|j: int| 0 <= j < i ==> (#[trigger] out@[j])@ == decode_utf8(l[j]),
            decreases keys@.len() - i,
        {
            proof {
                assert(l.contains(l[i as int]));
                assert(keys_with_prefix(fst_keys(*self.set), encode_utf8(prefix@)).contains(l[i as int]));
                assert(fst_keys(*self.set).contains(l[i as int]));
                let e = encodings(self.inserted@);
                let t = choose|t: int| 0 <= t < e.len() && e[t] == l[i as int];
                assert(e[t] == encode_utf8(self.inserted@[t]));
                assert(keys@[i as int]@ == l[i as int]);
            }
            out.push(lossy_text(&keys[i]));
            i = i + 1;
        }
        proof {
            assert(byte_listing(l, keys_with_prefix(encodings(self.inserted()).to_set(), encode_utf8(prefix@))));
        }
        out
    }

    /// Consider one candidate spelling: keep it when it is a word other than
    /// `word`.
    fn consider(
        &self,
        out: &mut Vec<String>,
        cand: &Vec<char>,
        wc: &Vec<char>,
        Ghost(seen): Ghost<Set<Seq<char>>>,
    ) -> (seen2: Ghost<Set<Seq<char>>>)
        requires
            self.wf(),
            texts_increasing(texts(old(out)@)),
            forall|x: Seq<char>| #[trigger] texts(old(out)@).contains(x) <==> (seen.contains(x)
                && x != wc@ && self.words().contains(x)),
        ensures
            seen2@ == seen.insert(cand@),
            texts_increasing(texts(final(out)@)),
            forall|x: Seq<char>| #[trigger] texts(final(out)@).contains(x) <==> (seen2@.contains(x)
                && x != wc@ && self.words().contains(x)),
    {
        let ghost seen2 = seen.insert(cand@);
        let same = match compare_char_vecs(cand, wc) {
            Order::Equal => true,
            _ => false,
        };
        if same {
            proof {
                assert forall|x: Seq<char>| #[trigger] texts(out@).contains(x) <==> (seen2.contains(x)
                    && x != wc@ && self.words().contains(x)) by {}
            }
            return Ghost(seen2);
        }
        proof {
            if cand@ == wc@ {
                lemma_seq_lt_irreflexive(wc@);
            }
        }
        let text = string_from_chars(cand);
        if !self.contains(text.as_str()) {
            proof {
                assert forall|x: Seq<char>| #[trigger] texts(out@).contains(x) <==> (seen2.contains(x)
                    && x != wc@ && self.words().contains(x)) by {}
            }
            return Ghost(seen2);
        }
        insert_sorted_unique(out, text);
        proof {
            assert forall|x: Seq<char>| #[trigger] texts(out@).contains(x) <==> (seen2.contains(x)
                && x != wc@ && self.words().contains(x)) by {}
        }
        Ghost(seen2)
    }

    /// Dictionary words exactly one edit (delete, adjacent transpose,
    /// substitute, or insert) away from `word`, in `str` order, each once;
    /// `word` itself is never included.
    pub fn fuzzy(&self, word: &str) -> (r: Vec<String>)
        requires
            self.wf(),
        ensures
            texts_increasing(texts(r@)),
            forall|x: Seq<char>| #[trigger] texts(r@).contains(x) <==> neighbours(self.words(), word@).contains(x),
    {
        let wc = chars_of(word);
        let n = wc.len();
        let mut out: Vec<String> = Vec::new();
        let ghost mut seen: Set<Seq<char>> = Set::empty();
        proof {
            assert(texts(out@) =~= Seq::<Seq<char>>::empty());
        }
        for i in 0..n
            invariant
                self.wf(),
                wc@ == word@,
                n == wc@.len(),
                texts_increasing(texts(out@)),
                forall|x: Seq<char>| #[trigger] texts(out@).contains(x) <==> (seen.contains(x) && x != wc@
                    && self.words().contains(x)),
                forall|x: Seq<char>| #[trigger] seen.contains(x) ==> one_edit(wc@, x),
                forall|j: int| 0 <= j < i ==> seen.contains(#[trigger] wc@.remove(j)),
        {
            let mut c = chars_of(word);
            c.remove(i);
            let g = self.consider(&mut out, &c, &wc, Ghost(seen));
            proof {
                assert(one_edit(wc@, c@));
                seen = g@;
            }
        }
        let ghost after_deletes = seen;
        if n >= 2 {
            for i in 0..n - 1
                invariant
                    self.wf(),
                    wc@ == word@,
                    n == wc@.len(),
                    n >= 2,
                    texts_increasing(texts(out@)),
                    forall|x: Seq<char>| #[trigger] texts(out@).contains(x) <==> (seen.contains(x) && x != wc@
                        && self.words().contains(x)),
                    forall|x: Seq<char>| #[trigger] seen.contains(x) ==> one_edit(wc@, x),
                    after_deletes.subset_of(seen),
                    forall|j: int| 0 <= j < i ==> seen.contains(#[trigger] swapped(wc@, j)),
            {
                let mut c = chars_of(word);
                let a = c[i];
                let b = c[i + 1];
                c.set(i, b);
                c.set(i + 1, a);
                proof {
                    assert(c@ =~= swapped(wc@, i as int));
                }
                let g = self.consider(&mut out, &c, &wc, Ghost(seen));
                proof {
                    assert(one_edit(wc@, c@));
                    seen = g@;
                }
            }
        }
        let ghost after_swaps = seen;
        let m = self.alphabet.len();
        for i in 0..n
            invariant
                self.wf(),
                wc@ == word@,
                n == wc@.len(),
                m == self.alphabet@.len(),
                texts_increasing(texts(out@)),
                forall|x: Seq<char>| #[trigger] texts(out@).contains(x) <==> (seen.contains(x) && x != wc@
                    && self.words().contains(x)),
                forall|x: Seq<char>| #[trigger] seen.contains(x) ==> one_edit(wc@, x),
                after_swaps.subset_of(seen),
                forall|j: int, t: int| 0 <= j < i && 0 <= t < m ==> seen.contains(
                    #[trigger] wc@.update(j, #[trigger] self.alphabet@[t]),
                ),
        {
            for t in 0..m
                invariant
                    self.wf(),
                    wc@ == word@,
                    n == wc@.len(),
                    i < n,
                    m == self.alphabet@.len(),
                    texts_increasing(texts(out@)),
                    forall|x: Seq<char>| #[trigger] texts(out@).contains(x) <==> (seen.contains(x) && x
                        != wc@ && self.words().contains(x)),
                    forall|x: Seq<char>| #[trigger] seen.contains(x) ==> one_edit(wc@, x),
                    after_swaps.subset_of(seen),
                    forall|j: int, t2: int| 0 <= j < i && 0 <= t2 < m ==> seen.contains(
                        #[trigger] wc@.update(j, #[trigger] self.alphabet@[t2]),
                    ),
                    forall|t2: int| 0 <= t2 < t ==> seen.contains(
                        #[trigger] wc@.update(i as int, self.alphabet@[t2]),
                    ),
            {
                let mut c = chars_of(word);
                c.set(i, self.alphabet[t]);
                let g = self.consider(&mut out, &c, &wc, Ghost(seen));
                proof {
                    assert(c@ == wc@.update(i as int, c@[i as int]));
                    assert(one_edit(wc@, c@));
                    seen = g@;
                }
            }
        }
        let ghost after_subs = seen;
        let mut i: usize = 0;
        let mut more = true;
        while more
            invariant
                self.wf(),
                wc@ == word@,
                n == wc@.len(),
                m == self.alphabet@.len(),
                i <= n,
                texts_increasing(texts(out@)),
                forall|x: Seq<char>| #[trigger] texts(out@).contains(x) <==> (seen.contains(x) && x != wc@
                    && self.words().contains(x)),
                forall|x: Seq<char>| #[trigger] seen.contains(x) ==> one_edit(wc@, x),
                after_subs.subset_of(seen),
                forall|j: int, t: int| 0 <= j < (if more { i as int } else { n + 1 }) && 0 <= t < m ==> seen.contains(
                    #[trigger] wc@.insert(j, #[trigger] self.alphabet@[t]),
                ),
            decreases n - i + (if more { 1int } else { 0int }),
        {
            for t in 0..m
                invariant
                    self.wf(),
                    wc@ == word@,
                    n == wc@.len(),
                    i <= n,
                    m == self.alphabet@.len(),
                    texts_increasing(texts(out@)),
                    forall|x: Seq<char>| #[trigger] texts(out@).contains(x) <==> (seen.contains(x) && x
                        != wc@ && self.words().contains(x)),
                    forall|x: Seq<char>| #[trigger] seen.contains(x) ==> one_edit(wc@, x),
                    after_subs.subset_of(seen),
                    forall|j: int, t2: int| 0 <= j < i && 0 <= t2 < m ==> seen.contains(
                        #[trigger] wc@.insert(j, #[trigger] self.alphabet@[t2]),
                    ),
                    forall|t2: int| 0 <= t2 < t ==> seen.contains(
                        #[trigger] wc@.insert(i as int, self.alphabet@[t2]),
                    ),
            {
                let mut c = chars_of(word);
                c.insert(i, self.alphabet[t]);
                let g = self.consider(&mut out, &c, &wc, Ghost(seen));
                proof {
                    assert(c@ == wc@.insert(i as int, c@[i as int]));
                    assert(one_edit(wc@, c@));
                    seen = g@;
                }
            }
            if i == n {
                more = false;
            } else {
                i = i + 1;
            }
        }
        proof {
            self.lemma_neighbours_seen(wc@, seen, after_deletes, after_swaps, after_subs);
            assert forall|x: Seq<char>| #[trigger] texts(out@).contains(x) <==> neighbours(
                self.words(),
                word@,
            ).contains(x) by {}
        }
        out
    }

    /// Every word one edit away is among the candidates tried: a replaced or
    /// inserted character of a word is in the alphabet.
    proof fn lemma_neighbours_seen(
        &self,
        w: Seq<char>,
        seen: Set<Seq<char>>,
        after_deletes: Set<Seq<char>>,
        after_swaps: Set<Seq<char>>,
        after_subs: Set<Seq<char>>,
    )
        requires
            self.wf(),
            forall|j: int| 0 <= j < w.len() ==> after_deletes.contains(#[trigger] w.remove(j)),
            after_deletes.subset_of(after_swaps),
            forall|j: int| 0 <= j < w.len() - 1 ==> after_swaps.contains(#[trigger] swapped(w, j)),
            after_swaps.subset_of(after_subs),
            forall|j: int, t: int| 0 <= j < w.len() && 0 <= t < self.alphabet@.len() ==> after_subs.contains(
                #[trigger] w.update(j, #[trigger] self.alphabet@[t]),
            ),
            after_subs.subset_of(seen),
            forall|j: int, t: int| 0 <= j < w.len() + 1 && 0 <= t < self.alphabet@.len() ==> seen.contains(
                #[trigger] w.insert(j, #[trigger] self.alphabet@[t]),
            ),
        ensures
            forall|x: Seq<char>| self.words().contains(x) && one_edit(w, x) ==> #[trigger] seen.contains(x),
    {
        assert forall|x: Seq<char>| self.words().contains(x) && one_edit(w, x) implies #[trigger] seen.contains(
            x,
        ) by {
            if exists|i: int| 0 <= i < w.len() && x == #[trigger] w.remove(i) {
                let i = choose|i: int| 0 <= i < w.len() && x == #[trigger] w.remove(i);
                assert(after_deletes.contains(w.remove(i)));
            } else if exists|i: int| 0 <= i < w.len() - 1 && x == #[trigger] swapped(w, i) {
                let i = choose|i: int| 0 <= i < w.len() - 1 && x == #[trigger] swapped(w, i);
                assert(after_swaps.contains(swapped(w, i)));
            } else if exists|i: int| 0 <= i < w.len() && x.len() == w.len() && x == #[trigger] w.update(i, x[i]) {
                let i = choose|i: int| 0 <= i < w.len() && x.len() == w.len() && x == #[trigger] w.update(i, x[i]);
                let t = self.lemma_in_alphabet(x, i);
                assert(after_subs.contains(w.update(i, self.alphabet@[t])));
            } else {
                let i = choose|i: int| 0 <= i <= w.len() && x.len() == w.len() + 1 && x == #[trigger] w.insert(i, x[i]);
                let t = self.lemma_in_alphabet(x, i);
                assert(seen.contains(w.insert(i, self.alphabet@[t])));
            }
        }
    }

    /// A character of a word is in the alphabet.
    proof fn lemma_in_alphabet(&self, x: Seq<char>, i: int) -> (t: int)
        requires
            self.wf(),
            self.words().contains(x),
            0 <= i < x.len(),
        ensures
            0 <= t < self.alphabet@.len(),
            self.alphabet@[t] == x[i],
    {
        let k = choose|k: int| 0 <= k < self.inserted@.len() && self.inserted@[k] == x;
        assert(self.inserted@[k][i] == x[i]);
        assert(in_some_word(self.inserted@, x[i]));
        assert(self.alphabet@.contains(x[i]));
        choose|t: int| 0 <= t < self.alphabet@.len() && self.alphabet@[t] == x[i]
    }

    /// Spellings whose match-folded form begins with
    /// `folded_prefix`, in `(folded, spelling)` order, capped at
    /// [`MAX_COMPLETIONS`]. The prefix is compared as given: callers fold it.
    pub fn fold_prefix(&self, folded_prefix: &str) -> (r: Vec<String>)
        requires
            self.wf(),
        ensures
            r@.map_values(|s: String| s@) == self.fold_prefix_spec(folded_prefix@),
    {
        let idx: &Vec<(String, String)> = &self.folded;
        let ghost iv = self.index();
        let ghost p = folded_prefix@;
        proof {
            self.lemma_index();
        }
        let pc = chars_of(folded_prefix);
        // Lower bound: the first entry whose folded form is not below the prefix.
        let mut lo: usize = 0;
        let mut hi: usize = idx.len();
        while lo < hi
            invariant
                iv == idx@.map_values(|q: (String, String)| pair_view(q)),
                forall|i: int, j: int| 0 <= i < j < iv.len() ==> !pair_lt(#[trigger] iv[j], #[trigger] iv[i]),
                p == folded_prefix@,
                lo <= hi <= idx@.len(),
                forall|i: int| 0 <= i < lo ==> seq_lt(#[trigger] iv[i].0, p),
                forall|i: int| hi <= i < iv.len() ==> !seq_lt(#[trigger] iv[i].0, p),
            decreases hi - lo,
        {
            let mid = lo + (hi - lo) / 2;
            let ord = crate::text::compare_text(idx[mid].0.as_str(), folded_prefix);
            let below = match ord {
                crate::text::Order::Less => true,
                _ => false,
            };
            proof {
                assert(iv[mid as int] == pair_view(idx@[mid as int]));
                assert(below ==> seq_lt(iv[mid as int].0, p));
                assert(!below ==> (iv[mid as int].0 == p || seq_lt(p, iv[mid as int].0)));
                if !below {
                    lemma_seq_lt_irreflexive(p);
                    crate::text::lemma_seq_lt_asymmetric(p, iv[mid as int].0);
                }
            }
            if below {
                proof {
                    assert forall|i: int| 0 <= i < mid + 1 implies seq_lt(#[trigger] iv[i].0, p) by {
                        if i < mid {
                            lemma_key_order(iv[i], iv[mid as int]);
                            if seq_lt(iv[i].0, iv[mid as int].0) {
                                lemma_seq_lt_transitive(iv[i].0, iv[mid as int].0, p);
                            }
                        }
                    }
                }
                lo = mid + 1;
            } else {
                proof {
                    assert forall|i: int| mid <= i < iv.len() implies !seq_lt(#[trigger] iv[i].0, p) by {
                        if i > mid {
                            lemma_key_order(iv[mid as int], iv[i]);
                            lemma_seq_lt_total(iv[mid as int].0, p);
                            if seq_lt(iv[i].0, p) {
                                if seq_lt(p, iv[mid as int].0) {
                                    lemma_seq_lt_transitive(p, iv[mid as int].0, iv[i].0);
                                    crate::text::lemma_seq_lt_asymmetric(p, iv[i].0);
                                } else if iv[mid as int].0 == p {
                                    lemma_seq_lt_irreflexive(p);
                                    crate::text::lemma_seq_lt_asymmetric(p, iv[i].0);
                                    if seq_lt(iv[mid as int].0, iv[i].0) {
                                        crate::text::lemma_seq_lt_asymmetric(iv[i].0, p);
                                    }
                                }
                            }
                        }
                    }
                }
                hi = mid;
            }
        }
        let start = lo;
        proof {
            lemma_fold_matches_skip(iv, p, start as int);
        }
        let mut out: Vec<String> = Vec::new();
        let mut k: usize = start;
        let mut done = false;
        while !done && k < idx.len() && out.len() < MAX_COMPLETIONS
            invariant
                iv == idx@.map_values(|q: (String, String)| pair_view(q)),
                forall|i: int, j: int| 0 <= i < j < iv.len() ==> !pair_lt(#[trigger] iv[j], #[trigger] iv[i]),
                forall|i: int| start <= i < iv.len() ==> !seq_lt(#[trigger] iv[i].0, p),
                pc@ == p,
                start <= k <= idx@.len(),
                done ==> k < idx@.len() && !is_prefix_of(p, iv[k as int].0),
                forall|i: int| 0 <= i < start ==> !is_prefix_of(p, #[trigger] iv[i].0),
                out@.map_values(|s: String| s@) == fold_matches(iv.take(k as int), p),
                out@.len() <= MAX_COMPLETIONS,
            decreases idx@.len() - k + (if done { 0int } else { 1int }),
        {
            let kc = chars_of(idx[k].0.as_str());
            proof {
                assert(iv[k as int] == pair_view(idx@[k as int]));
            }
            if !starts_with_chars(&kc, &pc) {
                done = true;
            } else {
                let ghost before = out@;
                out.push(idx[k].1.clone());
                proof {
                    assert(iv.take(k + 1).drop_last() =~= iv.take(k as int));
                    assert(iv.take(k + 1).last() == iv[k as int]);
                    assert(out@.map_values(|s: String| s@) =~= before.map_values(|s: String| s@).push(
                        iv[k as int].1,
                    ));
                }
                k = k + 1;
            }
        }
        proof {
            let fm = fold_matches(iv, p);
            lemma_fold_matches_prefix(iv, p, k as int);
            if out@.len() < MAX_COMPLETIONS {
                if k == idx@.len() {
                    assert(iv.take(k as int) =~= iv);
                } else {
                    lemma_fold_matches_tail(iv, p, start as int, k as int);
                }
            }
            assert(out@.map_values(|s: String| s@) =~= fm.take(capped(fm.len()) as int));
        }
        out
    }
}

/// Insert `s` into a strictly increasing list of strings, unless present.
fn insert_sorted_unique(out: &mut Vec<String>, s: String)
    requires
        texts_increasing(texts(old(out)@)),
    ensures
        texts_increasing(texts(final(out)@)),
        forall|x: Seq<char>| #[trigger] texts(final(out)@).contains(x) <==> (texts(old(out)@).contains(x) || x == s@),
{
    let ghost before = texts(out@);
    let mut pos: usize = 0;
    let mut stop = false;
    while !stop && pos < out.len()
        invariant
            before == texts(out@),
            texts_increasing(before),
            pos <= out@.len(),
            stop ==> pos < before.len() && seq_lt(s@, before[pos as int]),
            forall|t: int| 0 <= t < pos ==> seq_lt(#[trigger] before[t], s@),
        decreases out@.len() - pos + (if stop { 0int } else { 1int }),
    {
        match compare_text(out[pos].as_str(), s.as_str()) {
            Order::Less => {
                proof {
                    assert(before[pos as int] == out@[pos as int]@);
                }
                pos = pos + 1;
            },
            Order::Equal => {
                proof {
                    assert(before[pos as int] == s@);
                    assert forall|x: Seq<char>| #[trigger] texts(out@).contains(x) <==> (before.contains(x) || x == s@) by {
                        if x == s@ {
                            assert(before[pos as int] == x);
                        }
                    }
                }
                return;
            },
            Order::Greater => {
                proof {
                    assert(before[pos as int] == out@[pos as int]@);
                }
                stop = true;
            },
        }
    }
    let ghost sv = s@;
    proof {
        assert(pos < before.len() ==> seq_lt(sv, before[pos as int]));
    }
    out.insert(pos, s);
    proof {
        let after = texts(out@);
        assert(after =~= before.insert(pos as int, sv));
        assert forall|a: int, b: int| 0 <= a < b < after.len() implies seq_lt(#[trigger] after[a], #[trigger] after[b]) by {
            if b < pos {
            } else if b == pos {
            } else if a < pos {
                assert(after[b] == before[b - 1]);
                if b - 1 > pos {
                    lemma_seq_lt_transitive(after[a], sv, before[pos as int]);
                    lemma_seq_lt_transitive(after[a], before[pos as int], before[b - 1]);
                } else {
                    lemma_seq_lt_transitive(after[a], sv, before[pos as int]);
                }
            } else if a == pos {
                if b - 1 > pos {
                    lemma_seq_lt_transitive(sv, before[pos as int], before[b - 1]);
                }
            } else {
                assert(after[a] == before[a - 1] && after[b] == before[b - 1]);
            }
        }
        assert forall|x: Seq<char>| #[trigger] after.contains(x) <==> (before.contains(x) || x == sv) by {
            if after.contains(x) {
                let t = choose|t: int| 0 <= t < after.len() && after[t] == x;
                if t < pos {
                    assert(before[t] == x);
                } else if t > pos {
                    assert(before[t - 1] == x);
                }
            }
            if before.contains(x) {
                let t = choose|t: int| 0 <= t < before.len() && before[t] == x;
                if t < pos {
                    assert(after[t] == x);
                } else {
                    assert(after[t + 1] == x);
                }
            }
            if x == sv {
                assert(after[pos as int] == x);
            }
        }
    }
}

/// Index entries in order have non-decreasing folded forms.
proof fn lemma_key_order(a: (Seq<char>, Seq<char>), b: (Seq<char>, Seq<char>))
    requires
        !pair_lt(b, a),
    ensures
        seq_lt(a.0, b.0) || a.0 == b.0,
{
    lemma_seq_lt_total(a.0, b.0);
}

/// A prefix of `s` is not above `s`.
proof fn lemma_prefix_not_above(p: Seq<char>, s: Seq<char>)
    requires
        is_prefix_of(p, s),
    ensures
        !seq_lt(s, p),
    decreases p.len(),
{
    if p.len() > 0 {
        assert(s[0] == s.take(p.len() as int)[0]);
        assert(s.drop_first().take(p.len() - 1) =~= s.take(p.len() as int).drop_first());
        lemma_prefix_not_above(p.drop_first(), s.drop_first());
    }
}

/// Anything between `p` and a text beginning with `p` begins with `p`.
proof fn lemma_prefix_between(p: Seq<char>, x: Seq<char>, y: Seq<char>)
    requires
        !seq_lt(x, p),
        seq_lt(x, y) || x == y,
        is_prefix_of(p, y),
    ensures
        is_prefix_of(p, x),
    decreases p.len(),
{
    if p.len() > 0 {
        assert(y[0] == p[0]) by {
            assert(y.take(p.len() as int)[0] == y[0]);
        }
        assert(y.drop_first().take(p.len() - 1) =~= y.take(p.len() as int).drop_first());
        if x.len() == 0 {
        } else if x[0] != p[0] {
            if x == y {
            } else {
                assert(x[0] <= y[0] || x[0] > y[0]);
            }
        } else {
            if x != y {
                assert(x[0] == y[0]);
            }
            lemma_prefix_between(p.drop_first(), x.drop_first(), y.drop_first());
            assert(x.take(p.len() as int) =~= seq![x[0]] + x.drop_first().take(p.len() - 1));
            assert(p =~= seq![p[0]] + p.drop_first());
        }
    } else {
        assert(x.take(0) =~= p);
    }
}

/// `p` is a prefix of `s`, checked on characters.
fn starts_with_chars(s: &Vec<char>, p: &Vec<char>) -> (r: bool)
    ensures
        r == is_prefix_of(p@, s@),
{
    if p.len() > s.len() {
        return false;
    }
    let mut i: usize = 0;
    while i < p.len()
        invariant
            p@.len() <= s@.len(),
            i <= p@.len(),
            forall|j: int| 0 <= j < i ==> s@[j] == p@[j],
        decreases p@.len() - i,
    {
        if s[i] != p[i] {
            proof {
                assert(s@.take(p@.len() as int)[i as int] != p@[i as int]);
            }
            return false;
        }
        i = i + 1;
    }
    proof {
        assert(s@.take(p@.len() as int) =~= p@);
    }
    true
}

/// No entry below the lower bound matches, so none of them is listed.
proof fn lemma_fold_matches_skip(idx: Seq<(Seq<char>, Seq<char>)>, p: Seq<char>, start: int)
    requires
        0 <= start <= idx.len(),
        forall|i: int| 0 <= i < start ==> seq_lt(#[trigger] idx[i].0, p),
    ensures
        forall|i: int| 0 <= i < start ==> !is_prefix_of(p, #[trigger] idx[i].0),
        fold_matches(idx.take(start), p) == Seq::<Seq<char>>::empty(),
    decreases start,
{
    assert forall|i: int| 0 <= i < start implies !is_prefix_of(p, #[trigger] idx[i].0) by {
        if is_prefix_of(p, idx[i].0) {
            lemma_prefix_not_above(p, idx[i].0);
        }
    }
    if start > 0 {
        lemma_fold_matches_skip(idx, p, start - 1);
        assert(idx.take(start).drop_last() =~= idx.take(start - 1));
        assert(idx.take(start).last() == idx[start - 1]);
    }
}

/// `fold_matches` of a prefix of the index is a prefix of `fold_matches`.
proof fn lemma_fold_matches_prefix(idx: Seq<(Seq<char>, Seq<char>)>, p: Seq<char>, k: int)
    requires
        0 <= k <= idx.len(),
    ensures
        is_prefix_of(fold_matches(idx.take(k), p), fold_matches(idx, p)),
    decreases idx.len() - k,
{
    if k == idx.len() {
        assert(idx.take(k) =~= idx);
        assert(fold_matches(idx, p).take(fold_matches(idx, p).len() as int) =~= fold_matches(idx, p));
    } else {
        lemma_fold_matches_prefix(idx, p, k + 1);
        let a = fold_matches(idx.take(k), p);
        let b = fold_matches(idx.take(k + 1), p);
        assert(idx.take(k + 1).drop_last() =~= idx.take(k));
        let full = fold_matches(idx, p);
        assert(full.take(b.len() as int) == b);
        if b.len() == a.len() {
            assert(b == a);
        } else {
            assert(b == a.push(idx[k].1));
            assert(full.take(a.len() as int) =~= b.take(a.len() as int));
            assert(b.take(a.len() as int) =~= a);
        }
    }
}

/// Past the first non-match at or above the lower bound nothing matches, so
/// the listing ends there.
proof fn lemma_fold_matches_tail(idx: Seq<(Seq<char>, Seq<char>)>, p: Seq<char>, start: int, k: int)
    requires
        0 <= start <= k <= idx.len(),
        forall|i: int, j: int| 0 <= i < j < idx.len() ==> !pair_lt(#[trigger] idx[j], #[trigger] idx[i]),
        forall|i: int| start <= i < idx.len() ==> !seq_lt(#[trigger] idx[i].0, p),
        k < idx.len() ==> !is_prefix_of(p, idx[k].0),
    ensures
        fold_matches(idx, p) == fold_matches(idx.take(k), p),
    decreases idx.len() - k,
{
    if k < idx.len() {
        assert forall|j: int| k <= j < idx.len() implies !is_prefix_of(p, #[trigger] idx[j].0) by {
            if is_prefix_of(p, idx[j].0) && j > k {
                lemma_key_order(idx[k], idx[j]);
                lemma_prefix_between(p, idx[k].0, idx[j].0);
            }
        }
        lemma_fold_matches_none(idx, p, k, idx.len() as int);
        assert(idx.take(idx.len() as int) =~= idx);
    } else {
        assert(idx.take(k) =~= idx);
    }
}

/// With no match in `k .. m`, the listing over the first `m` entries is the
/// listing over the first `k`.
proof fn lemma_fold_matches_none(idx: Seq<(Seq<char>, Seq<char>)>, p: Seq<char>, k: int, m: int)
    requires
        0 <= k <= m <= idx.len(),
        forall|j: int| k <= j < idx.len() ==> !is_prefix_of(p, #[trigger] idx[j].0),
    ensures
        fold_matches(idx.take(m), p) == fold_matches(idx.take(k), p),
    decreases m - k,
{
    if m > k {
        lemma_fold_matches_none(idx, p, k, m - 1);
        assert(idx.take(m).drop_last() =~= idx.take(m - 1));
        assert(idx.take(m).last() == idx[m - 1]);
    }
    if m == idx.len() {
        assert(idx.take(m) =~= idx);
    }
}

} // verus!
