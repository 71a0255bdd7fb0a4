//! The no-clobber correction rule: a word the user clearly intended is never
//! rewritten; anything else is offered its one-edit dictionary neighbours.
use crate::counts::{count_in, WordCounts};
use crate::dictionary::{neighbours, texts, texts_increasing, Dictionary};
use crate::propercase::{lowercase_text, text_to_lowercase};
use crate::text::{compare_text, lemma_seq_lt_asymmetric, lemma_seq_lt_irreflexive, lemma_seq_lt_total, lemma_seq_lt_transitive, seq_lt, Order};
use vstd::prelude::*;

verus! {

/// A correction outcome: the word to commit, the other offers, and whether
/// the committed word replaces what was typed.
#[derive(Debug, Clone, PartialEq, Eq)]
pub struct Correction {
    /// The word to commit.
    pub primary: String,
    /// Further candidates, best first.
    pub alternatives: Vec<String>,
    /// `true` when `primary` replaces the typed word.
    pub applied: bool,
    /// A winner that a gate declined to apply, if one was withheld.
    pub withheld: Option<String>,
}

/// A word the user clearly intended: empty, known to the user, in the
/// dictionary as typed or lowercased, or recognised by an active language.
pub open spec fn intended(words: Set<Seq<char>>, w: Seq<char>, known: bool, recognized: bool) -> bool {
    ||| w.len() == 0
    ||| known
    ||| words.contains(w)
    ||| words.contains(lowercase_text(w))
    ||| recognized
}

/// The typed word committed verbatim, nothing applied.
pub open spec fn is_unchanged(c: Correction, w: Seq<char>) -> bool {
    c.primary@ == w && c.alternatives@.len() == 0 && !c.applied && c.withheld is None
}

/// The typed word committed verbatim, nothing applied.
fn unchanged(word: &str) -> (c: Correction)
    ensures
        is_unchanged(c, word@),
{
    Correction { primary: crate::text::owned(word), alternatives: Vec::new(), applied: false, withheld: None }
}

/// Decide whether and how to correct `word`. `known` is whether the user's
/// vocabulary knows it (learned or whitelisted) and `recognized` whether any
/// active language recognises it as typed or lowercased. An intended word is
/// returned unchanged; otherwise its one-edit neighbours are offered, the
/// first in `str` order as the primary, and with none the word is left as is.
pub fn no_clobber_correct(dict: &Dictionary, word: &str, known: bool, recognized: bool) -> (r: Correction)
    requires
        dict.wf(),
    ensures
        intended(dict.words(), word@, known, recognized) ==> is_unchanged(r, word@),
        !intended(dict.words(), word@, known, recognized) && neighbours(dict.words(), word@).len() == 0
            ==> is_unchanged(r, word@),
        !intended(dict.words(), word@, known, recognized) && neighbours(dict.words(), word@).len() > 0
            ==> {
            &&& r.applied
            &&& r.withheld is None
            &&& texts_increasing(seq![r.primary@] + texts(r.alternatives@))
            &&& forall|x: Seq<char>| #[trigger] (seq![r.primary@] + texts(r.alternatives@)).contains(x)
                <==> neighbours(dict.words(), word@).contains(x)
        },
{
    if word.is_empty() || known {
        return unchanged(word);
    }
    let lower = text_to_lowercase(word);
    if dict.contains(word) || dict.contains(lower.as_str()) || recognized {
        return unchanged(word);
    }
    let candidates = dict.fuzzy(word);
    proof {
        let n = neighbours(dict.words(), word@);
        let t = texts(candidates@);
        if t.len() == 0 {
            assert forall|x: Seq<char>| !n.contains(x) by {
                assert(!t.contains(x));
            }
            assert(n =~= Set::<Seq<char>>::empty());
        } else {
            assert(t.contains(t[0]));
            assert(n.contains(t[0]));
        }
    }
    if candidates.len() == 0 {
        return unchanged(word);
    }
    let mut rest = candidates;
    let ghost all = rest@;
    let primary = rest.remove(0);
    proof {
        let t = texts(all);
        assert(seq![primary@] + texts(rest@) =~= t);
    }
    Correction { primary, alternatives: rest, applied: true, withheld: None }
}

/// The correction after a gate has weighed the winner: with no winner to
/// weigh, the no-clobber `outcome` stands as it is; an applied winner becomes
/// the primary with the outcome's alternatives; a declined winner leaves the
/// typed `text` committed, offers nothing, and is reported as withheld.
pub fn gated_correction(text: &str, outcome: Correction, winner: Option<String>, applied: bool) -> (r: Correction)
    ensures
        match winner {
            None => r == outcome,
            Some(w) => if applied {
                r.primary@ == w@ && r.applied && r.alternatives == outcome.alternatives && r.withheld is None
            } else {
                &&& r.primary@ == text@
                &&& !r.applied
                &&& r.alternatives@.len() == 0
                &&& r.withheld is Some
                &&& r.withheld->0@ == w@
            },
        },
{
    match winner {
        None => outcome,
        Some(w) => {
            if applied {
                Correction { primary: w, alternatives: outcome.alternatives, applied: true, withheld: None }
            } else {
                Correction {
                    primary: crate::text::owned(text),
                    alternatives: Vec::new(),
                    applied: false,
                    withheld: Some(w),
                }
            }
        },
    }
}

/// A word's bundled rank, or `u32::MAX` when it has none.
pub open spec fn rank_or_last(rank: Map<Seq<char>, u32>, w: Seq<char>) -> u32 {
    if rank.contains_key(w) {
        rank[w]
    } else {
        u32::MAX
    }
}

/// `a` sorts before `b`: commoner (smaller rank) first, equal ranks in `str`
/// order.
pub open spec fn ranks_first(rank: Map<Seq<char>, u32>, a: Seq<char>, b: Seq<char>) -> bool {
    rank_or_last(rank, a) < rank_or_last(rank, b) || (rank_or_last(rank, a) == rank_or_last(rank, b)
        && seq_lt(a, b))
}

/// Neighbour order is commoner first: a smaller bundled rank (an unranked
/// word counting as `u32::MAX`) comes first whatever the words, and between
/// equal ranks the `str`-smaller word comes first.
pub proof fn neighbour_order_is_rank_then_word(rank: Map<Seq<char>, u32>, a: Seq<char>, b: Seq<char>)
    ensures
        !rank.contains_key(a) ==> rank_or_last(rank, a) == u32::MAX,
        rank.contains_key(a) ==> rank_or_last(rank, a) == rank[a],
        rank_or_last(rank, a) < rank_or_last(rank, b) ==> ranks_first(rank, a, b),
        rank_or_last(rank, a) > rank_or_last(rank, b) ==> !ranks_first(rank, a, b),
        rank_or_last(rank, a) == rank_or_last(rank, b) ==> (ranks_first(rank, a, b) <==> seq_lt(a, b)),
{
}

/// The rank of `w` in a rank table.
fn rank_of(rank: &WordCounts, w: &str) -> (r: u32)
    requires
        rank.wf(),
    ensures
        r == rank_or_last(rank@, w@),
{
    match rank.get(w) {
        Some(r) => *r,
        None => u32::MAX,
    }
}

/// `ranks_first` is a strict total order on distinct words.
pub proof fn lemma_ranks_first_order(rank: Map<Seq<char>, u32>, a: Seq<char>, b: Seq<char>, c: Seq<char>)
    ensures
        !ranks_first(rank, a, a),
        ranks_first(rank, a, b) ==> !ranks_first(rank, b, a),
        ranks_first(rank, a, b) && ranks_first(rank, b, c) ==> ranks_first(rank, a, c),
        a != b ==> ranks_first(rank, a, b) || ranks_first(rank, b, a),
{
    lemma_seq_lt_irreflexive(a);
    lemma_seq_lt_asymmetric(a, b);
    lemma_seq_lt_total(a, b);
    if seq_lt(a, b) && seq_lt(b, c) {
        lemma_seq_lt_transitive(a, b, c);
    }
}

/// One pack's one-edit neighbours of `text`, commonest first by its bundled
/// `rank`; a word with no rank sorts last and equal ranks keep `str` order.
pub fn ranked_neighbours(dict: &Dictionary, rank: &WordCounts, text: &str) -> (r: Vec<String>)
    requires
        dict.wf(),
        rank.wf(),
    ensures
        forall|i: int, j: int| 0 <= i < j < r@.len() ==> ranks_first(rank@, #[trigger] r@[i]@, #[trigger] r@[j]@),
        forall|x: Seq<char>| #[trigger] texts(r@).contains(x) <==> neighbours(dict.words(), text@).contains(x),
{
    let ns = dict.fuzzy(text);
    let ghost nt = texts(ns@);
    let mut out: Vec<String> = Vec::new();
    let mut out_ranks: Vec<u32> = Vec::new();
    for k in 0..ns.len()
        invariant
            rank.wf(),
            nt == texts(ns@),
            texts_increasing(nt),
            out_ranks@.len() == out@.len(),
            forall|i: int| 0 <= i < out@.len() ==> out_ranks@[i] == rank_or_last(rank@, #[trigger] out@[i]@),
            forall|i: int, j: int| 0 <= i < j < out@.len() ==> ranks_first(rank@, #[trigger] out@[i]@, #[trigger] out@[j]@),
            forall|x: Seq<char>| #[trigger] texts(out@).contains(x) <==> nt.take(k as int).contains(x),
    {
        let w = ns[k].clone();
        let rw = rank_of(rank, w.as_str());
        let ghost wv = w@;
        proof {
            assert(wv == nt[k as int]);
            assert(!texts(out@).contains(wv)) by {
                if texts(out@).contains(wv) {
                    let t = choose|t: int| 0 <= t < k && #[trigger] nt.take(k as int)[t] == wv;
                    assert(nt[t] == wv);
                    lemma_seq_lt_irreflexive(wv);
                }
            }
        }
        let mut pos: usize = out.len();
        let mut placed = false;
        while !placed && pos > 0
            invariant
                pos <= out@.len(),
                out_ranks@.len() == out@.len(),
                forall|i: int| 0 <= i < out@.len() ==> out_ranks@[i] == rank_or_last(rank@, #[trigger] out@[i]@),
                forall|i: int| pos <= i < out@.len() ==> ranks_first(rank@, wv, #[trigger] out@[i]@),
                placed ==> pos > 0 && ranks_first(rank@, out@[pos - 1]@, wv),
                rw == rank_or_last(rank@, wv),
                wv == w@,
                !texts(out@).contains(wv),
            decreases pos + (if placed { 0int } else { 1int }),
        {
            let below = out_ranks[pos - 1] < rw || (out_ranks[pos - 1] == rw && is_less(
                out[pos - 1].as_str(),
                w.as_str(),
            ));
            proof {
                let o = out@[pos - 1]@;
                assert(texts(out@)[pos - 1] == o);
                assert(texts(out@).contains(o));
                assert(o != wv);
                assert(below == ranks_first(rank@, o, wv));
                lemma_ranks_first_order(rank@, wv, o, wv);
            }
            if below {
                placed = true;
            } else {
                pos = pos - 1;
            }
        }
        let ghost before = out@;
        let ghost before_ranks = out_ranks@;
        out.insert(pos, w);
        out_ranks.insert(pos, rw);
        proof {
            assert forall|i: int, j: int| 0 <= i < j < out@.len() implies ranks_first(rank@, #[trigger] out@[i]@, #[trigger] out@[j]@) by {
                if j < pos {
                    assert(out@[i] == before[i] && out@[j] == before[j]);
                } else if j == pos {
                    assert(out@[i] == before[i]);
                    if i < pos - 1 {
                        lemma_ranks_first_order(rank@, before[i]@, before[pos - 1]@, wv);
                    }
                } else if i < pos {
                    assert(out@[i] == before[i] && out@[j] == before[j - 1]);
                } else if i == pos {
                    assert(out@[j] == before[j - 1]);
                } else {
                    assert(out@[i] == before[i - 1] && out@[j] == before[j - 1]);
                }
            }
            assert forall|i: int| 0 <= i < out@.len() implies out_ranks@[i] == rank_or_last(rank@, #[trigger] out@[i]@) by {
                if i < pos {
                    assert(out@[i] == before[i]);
                } else if i > pos {
                    assert(out@[i] == before[i - 1]);
                }
            }
            assert(nt.take(k + 1) =~= nt.take(k as int).push(wv));
            assert forall|x: Seq<char>| #[trigger] texts(out@).contains(x) <==> nt.take(k + 1).contains(x) by {
                let ta = texts(out@);
                let tb = texts(before);
                assert(ta =~= tb.insert(pos as int, wv));
                if ta.contains(x) {
                    let t = choose|t: int| 0 <= t < ta.len() && ta[t] == x;
                    if t < pos {
                        assert(tb[t] == x);
                        assert(tb.contains(x));
                    } else if t > pos {
                        assert(tb[t - 1] == x);
                        assert(tb.contains(x));
                    }
                    if x != wv {
                        assert(nt.take(k as int).contains(x));
                        let u = choose|u: int| 0 <= u < k && #[trigger] nt.take(k as int)[u] == x;
                        assert(nt.take(k + 1)[u] == x);
                    } else {
                        assert(nt.take(k + 1)[k as int] == x);
                    }
                }
                if nt.take(k + 1).contains(x) {
                    let u = choose|u: int| 0 <= u < k + 1 && #[trigger] nt.take(k + 1)[u] == x;
                    if u < k {
                        assert(nt.take(k as int)[u] == x);
                        assert(tb.contains(x));
                        let t = choose|t: int| 0 <= t < tb.len() && tb[t] == x;
                        if t < pos {
                            assert(ta[t] == x);
                        } else {
                            assert(ta[t + 1] == x);
                        }
                    } else {
                        assert(ta[pos as int] == x);
                    }
                }
            }
        }
    }
    proof {
        assert(nt.take(ns@.len() as int) =~= nt);
    }
    out
}

/// `a` sorts before `b` in `str` order.
fn is_less(a: &str, b: &str) -> (r: bool)
    ensures
        r == seq_lt(a@, b@),
{
    match compare_text(a, b) {
        Order::Less => true,
        Order::Equal => {
            proof {
                lemma_seq_lt_irreflexive(a@);
            }
            false
        },
        Order::Greater => {
            proof {
                lemma_seq_lt_asymmetric(b@, a@);
            }
            false
        },
    }
}

} // verus!
