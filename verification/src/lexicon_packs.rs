//! Lookups across the active languages' lexicons: each pack is a language's
//! dictionary with the bundled frequency rank of its words (0 = commonest).
use crate::correction::rank_or_last;
use crate::assoc::{lemma_text_map, sorted_by_text, text_keys, text_map};
use crate::counts::{count_in, WordCounts};
use crate::gesture_index::{indexed, GestureIndex};
use crate::dictionary::{texts, Dictionary};
use crate::fold::{fold, fold_spec};
use crate::propercase::{lowercase_text, text_to_lowercase};
use crate::text::{
    compare_text, lemma_seq_lt_asymmetric, lemma_seq_lt_irreflexive, lemma_seq_lt_total,
    lemma_seq_lt_transitive, same_text, seq_lt, Order,
};
use vstd::prelude::*;

verus! {

/// One active language's lexicon: its tag, its dictionary, and the bundled
/// frequency rank of its words.
pub struct LexiconPack {
    /// The language tag.
    pub lang: String,
    /// The lexicon.
    pub dict: Dictionary,
    /// `word -> rank`, 0 being the commonest word.
    pub rank: WordCounts,
}

/// Every pack's dictionary and rank table are well formed.
pub open spec fn packs_wf(packs: Seq<LexiconPack>) -> bool {
    forall|i: int| 0 <= i < packs.len() ==> (#[trigger] packs[i]).dict.wf() && packs[i].rank.wf()
}

/// `acc` extended with the words of `ws` it does not list yet, each with its
/// rank in `rank`.
pub open spec fn add_hits(
    acc: Seq<(u32, Seq<char>)>,
    ws: Seq<Seq<char>>,
    rank: Map<Seq<char>, u32>,
) -> Seq<(u32, Seq<char>)>
    decreases ws.len(),
{
    if ws.len() == 0 {
        acc
    } else {
        let a = add_hits(acc, ws.drop_last(), rank);
        let w = ws.last();
        if exists|i: int| 0 <= i < a.len() && (#[trigger] a[i]).1 == w {
            a
        } else {
            a.push((rank_or_last(rank, w), w))
        }
    }
}

/// The accent-insensitive completions of `folded` across `packs`, in pack
/// order, each word once with the rank of the first pack that lists it.
pub open spec fn gathered(packs: Seq<LexiconPack>, folded: Seq<char>) -> Seq<(u32, Seq<char>)>
    decreases packs.len(),
{
    if packs.len() == 0 {
        Seq::empty()
    } else {
        add_hits(
            gathered(packs.drop_last(), folded),
            packs.last().dict.fold_prefix_spec(folded),
            packs.last().rank@,
        )
    }
}

/// `(rank, word)` order: commoner first, equal ranks in `str` order.
pub open spec fn hit_lt(a: (u32, Seq<char>), b: (u32, Seq<char>)) -> bool {
    a.0 < b.0 || (a.0 == b.0 && seq_lt(a.1, b.1))
}

/// The hit order is rank first, then word: a strictly commoner hit comes
/// first whatever its word, a strictly rarer one never does, and between hits
/// of equal rank the `str`-smaller word comes first.
pub proof fn hit_order_is_rank_then_word(a: (u32, Seq<char>), b: (u32, Seq<char>))
    ensures
        a.0 < b.0 ==> hit_lt(a, b),
        a.0 > b.0 ==> !hit_lt(a, b),
        a.0 == b.0 ==> (hit_lt(a, b) <==> seq_lt(a.1, b.1)),
{
}

/// The words of a hit list.
pub open spec fn hit_words(s: Seq<(u32, Seq<char>)>) -> Seq<Seq<char>> {
    s.map_values(|h: (u32, Seq<char>)| h.1)
}

/// A hit list as plain values.
pub open spec fn hits_view(v: Seq<(u32, String)>) -> Seq<(u32, Seq<char>)> {
    v.map_values(|h: (u32, String)| (h.0, h.1@))
}

/// `hit_lt` is a strict total order on hits with different words.
proof fn lemma_hit_order(a: (u32, Seq<char>), b: (u32, Seq<char>), c: (u32, Seq<char>))
    ensures
        !hit_lt(a, a),
        hit_lt(a, b) ==> !hit_lt(b, a),
        hit_lt(a, b) && hit_lt(b, c) ==> hit_lt(a, c),
        a.1 != b.1 ==> hit_lt(a, b) || hit_lt(b, a),
{
    lemma_seq_lt_irreflexive(a.1);
    lemma_seq_lt_asymmetric(a.1, b.1);
    lemma_seq_lt_total(a.1, b.1);
    if seq_lt(a.1, b.1) && seq_lt(b.1, c.1) {
        lemma_seq_lt_transitive(a.1, b.1, c.1);
    }
}

/// Append to `hits` the words of `ws` not yet listed, with their rank.
fn add_pack_hits(hits: &mut Vec<(u32, String)>, ws: Vec<String>, rank: &WordCounts)
    requires
        rank.wf(),
    ensures
        hits_view(final(hits)@) == add_hits(hits_view(old(hits)@), texts(ws@), rank@),
{
    let ghost start = hits_view(hits@);
    let ghost wv = texts(ws@);
    proof {
        assert(wv.take(0) =~= Seq::<Seq<char>>::empty());
    }
    for k in 0..ws.len()
        invariant
            rank.wf(),
            wv == texts(ws@),
            hits_view(hits@) == add_hits(start, wv.take(k as int), rank@),
    {
        let w = &ws[k];
        let ghost a = hits_view(hits@);
        proof {
            assert(wv.take(k + 1).drop_last() =~= wv.take(k as int));
            assert(wv.take(k + 1).last() == w@);
        }
        let mut present = false;
        let mut j: usize = 0;
        while j < hits.len()
            invariant
                a == hits_view(hits@),
                j <= hits@.len(),
                present == exists|i: int| 0 <= i < j && (#[trigger] a[i]).1 == w@,
            decreases hits@.len() - j,
        {
            if same_text(hits[j].1.as_str(), w.as_str()) {
                present = true;
            }
            proof {
                assert(a[j as int].1 == hits@[j as int].1@);
            }
            j = j + 1;
        }
        if !present {
            let r = match rank.get(w.as_str()) {
                Some(r) => *r,
                None => u32::MAX,
            };
            hits.push((r, w.clone()));
            proof {
                assert(hits_view(hits@) =~= a.push((rank_or_last(rank@, w@), w@)));
            }
        }
    }
    proof {
        assert(wv.take(wv.len() as int) =~= wv);
    }
}

/// Up to `limit` accent-insensitive completions of `prefix` across `packs`:
/// every pack's folded-prefix matches, each word once (with the rank of the
/// first pack listing it), commonest first, equal ranks in `str` order.
pub fn ranked_completions(packs: &[LexiconPack], prefix: &str, limit: usize) -> (r: Vec<String>)
    requires
        packs_wf(packs@),
    ensures
        exists|sorted: Seq<(u32, Seq<char>)>|
            #![trigger hit_words(sorted)]
            {
                &&& forall|i: int, j: int| 0 <= i < j < sorted.len() ==> hit_lt(#[trigger] sorted[i], #[trigger] sorted[j])
                &&& forall|i: int, j: int|
                    0 <= i < j < sorted.len() ==> (#[trigger] sorted[i]).0 < (#[trigger] sorted[j]).0 || (sorted[i].0
                        == sorted[j].0 && seq_lt(sorted[i].1, sorted[j].1))
                &&& forall|h: (u32, Seq<char>)| #[trigger] sorted.contains(h) <==> gathered(packs@, fold_spec(prefix@)).contains(h)
                &&& texts(r@) == hit_words(sorted).take(if limit < sorted.len() { limit as int } else { sorted.len() as int })
            },
{
    let folded = fold(prefix);
    let ghost fv = folded@;
    let mut hits: Vec<(u32, String)> = Vec::new();
    proof {
        assert(packs@.take(0) =~= Seq::<LexiconPack>::empty());
        assert(hits_view(hits@) =~= Seq::<(u32, Seq<char>)>::empty());
    }
    for p in 0..packs.len()
        invariant
            packs_wf(packs@),
            fv == folded@,
            hits_view(hits@) == gathered(packs@.take(p as int), fv),
    {
        let pack = &packs[p];
        proof {
            assert(packs@[p as int].dict.wf() && packs@[p as int].rank.wf());
        }
        let ws = pack.dict.fold_prefix(folded.as_str());
        add_pack_hits(&mut hits, ws, &pack.rank);
        proof {
            assert(packs@.take(p + 1).drop_last() =~= packs@.take(p as int));
            assert(packs@.take(p + 1).last() == packs@[p as int]);
        }
    }
    proof {
        assert(packs@.take(packs@.len() as int) =~= packs@);
        lemma_gathered_unique(packs@, fv);
    }
    let ghost g = hits_view(hits@);
    let sorted = sort_hits(&hits);
    let mut out: Vec<String> = Vec::new();
    let n = if limit < sorted.len() {
        limit
    } else {
        sorted.len()
    };
    for i in 0..n
        invariant
            n <= sorted@.len(),
            texts(out@) == hit_words(hits_view(sorted@)).take(i as int),
    {
        out.push(sorted[i].1.clone());
        proof {
            assert(hit_words(hits_view(sorted@)).take(i + 1) =~= hit_words(hits_view(sorted@)).take(
                i as int,
            ).push(sorted@[i as int].1@));
            assert(texts(out@) =~= hit_words(hits_view(sorted@)).take(i + 1));
        }
    }
    proof {
        let sv = hits_view(sorted@);
        assert(texts(out@) == hit_words(sv).take(if limit < sv.len() { limit as int } else { sv.len() as int }));
    }
    out
}

/// Hit lists built by `add_hits` list each word once.
pub open spec fn words_unique(s: Seq<(u32, Seq<char>)>) -> bool {
    forall|i: int, j: int| 0 <= i < j < s.len() ==> (#[trigger] s[i]).1 != (#[trigger] s[j]).1
}

/// `add_hits` keeps words unique.
proof fn lemma_add_hits_unique(acc: Seq<(u32, Seq<char>)>, ws: Seq<Seq<char>>, rank: Map<Seq<char>, u32>)
    requires
        words_unique(acc),
    ensures
        words_unique(add_hits(acc, ws, rank)),
    decreases ws.len(),
{
    if ws.len() > 0 {
        lemma_add_hits_unique(acc, ws.drop_last(), rank);
        let a = add_hits(acc, ws.drop_last(), rank);
        let w = ws.last();
        if !(exists|i: int| 0 <= i < a.len() && (#[trigger] a[i]).1 == w) {
            let b = a.push((rank_or_last(rank, w), w));
            assert forall|i: int, j: int| 0 <= i < j < b.len() implies (#[trigger] b[i]).1 != (#[trigger] b[j]).1 by {
                if j < a.len() {
                    assert(b[i] == a[i] && b[j] == a[j]);
                } else {
                    assert(b[i] == a[i]);
                }
            }
        }
    }
}

/// Gathered hits list each word once.
proof fn lemma_gathered_unique(packs: Seq<LexiconPack>, folded: Seq<char>)
    ensures
        words_unique(gathered(packs, folded)),
    decreases packs.len(),
{
    if packs.len() > 0 {
        lemma_gathered_unique(packs.drop_last(), folded);
        lemma_add_hits_unique(
            gathered(packs.drop_last(), folded),
            packs.last().dict.fold_prefix_spec(folded),
            packs.last().rank@,
        );
    }
}

/// `a` sorts before `b` by `(rank, word)`.
fn hit_less(a: &(u32, String), b: &(u32, String)) -> (r: bool)
    ensures
        r == hit_lt((a.0, a.1@), (b.0, b.1@)),
        r == (a.0 < b.0 || (a.0 == b.0 && seq_lt(a.1@, b.1@))),
{
    if a.0 < b.0 {
        return true;
    }
    if a.0 > b.0 {
        return false;
    }
    match compare_text(a.1.as_str(), b.1.as_str()) {
        Order::Less => true,
        Order::Equal => {
            proof {
                lemma_seq_lt_irreflexive(a.1@);
            }
            false
        },
        Order::Greater => {
            proof {
                lemma_seq_lt_asymmetric(b.1@, a.1@);
            }
            false
        },
    }
}

/// Sort hits with distinct words by `(rank, word)`.
fn sort_hits(hits: &Vec<(u32, String)>) -> (r: Vec<(u32, String)>)
    requires
        words_unique(hits_view(hits@)),
    ensures
        forall|i: int, j: int| 0 <= i < j < r@.len() ==> hit_lt(#[trigger] hits_view(r@)[i], #[trigger] hits_view(r@)[j]),
        forall|i: int, j: int|
            0 <= i < j < r@.len() ==> (#[trigger] r@[i]).0 < (#[trigger] r@[j]).0 || (r@[i].0 == r@[j].0 && seq_lt(
                r@[i].1@,
                r@[j].1@,
            )),
        forall|h: (u32, Seq<char>)| #[trigger] hits_view(r@).contains(h) <==> hits_view(hits@).contains(h),
{
    let ghost src = hits_view(hits@);
    let mut out: Vec<(u32, String)> = Vec::new();
    proof {
        assert(hits_view(out@) =~= Seq::<(u32, Seq<char>)>::empty());
    }
    for k in 0..hits.len()
        invariant
            src == hits_view(hits@),
            words_unique(src),
            forall|i: int, j: int| 0 <= i < j < out@.len() ==> hit_lt(#[trigger] hits_view(out@)[i], #[trigger] hits_view(out@)[j]),
            forall|h: (u32, Seq<char>)| #[trigger] hits_view(out@).contains(h) <==> src.take(k as int).contains(h),
    {
        let x = (hits[k].0, hits[k].1.clone());
        let ghost xv = (x.0, x.1@);
        proof {
            assert(xv == src[k as int]);
            assert forall|h: (u32, Seq<char>)| #[trigger] hits_view(out@).contains(h) implies h.1 != xv.1 by {
                let t = choose|t: int| 0 <= t < k && #[trigger] src.take(k as int)[t] == h;
                assert(src[t] == h);
            }
        }
        let mut pos: usize = out.len();
        let mut placed = false;
        while !placed && pos > 0
            invariant
                pos <= out@.len(),
                forall|i: int| pos <= i < out@.len() ==> hit_lt(xv, #[trigger] hits_view(out@)[i]),
                placed ==> pos > 0 && hit_lt(hits_view(out@)[pos - 1], xv),
                forall|h: (u32, Seq<char>)| #[trigger] hits_view(out@).contains(h) ==> h.1 != xv.1,
                xv == (x.0, x.1@),
            decreases pos + (if placed { 0int } else { 1int }),
        {
            let below = hit_less(&out[pos - 1], &x);
            proof {
                let o = hits_view(out@)[pos - 1];
                assert(hits_view(out@).contains(o));
                lemma_hit_order(xv, o, xv);
            }
            if below {
                placed = true;
            } else {
                pos = pos - 1;
            }
        }
        let ghost before = hits_view(out@);
        out.insert(pos, x);
        proof {
            let after = hits_view(out@);
            assert(after =~= before.insert(pos as int, xv));
            assert forall|i: int, j: int| 0 <= i < j < after.len() implies hit_lt(#[trigger] after[i], #[trigger] after[j]) by {
                if j < pos {
                } else if j == pos {
                    if i < pos - 1 {
                        lemma_hit_order(before[i], before[pos - 1], xv);
                    }
                } else if i < pos {
                    assert(after[j] == before[j - 1]);
                    lemma_hit_order(before[i], xv, before[j - 1]);
                } else if i == pos {
                } else {
                    assert(after[i] == before[i - 1] && after[j] == before[j - 1]);
                }
            }
            assert(src.take(k + 1) =~= src.take(k as int).push(xv));
            assert forall|h: (u32, Seq<char>)| #[trigger] after.contains(h) <==> src.take(k + 1).contains(h) by {
                if after.contains(h) {
                    let t = choose|t: int| 0 <= t < after.len() && after[t] == h;
                    if t < pos {
                        assert(before[t] == h);
                        assert(before.contains(h));
                    } else if t > pos {
                        assert(before[t - 1] == h);
                        assert(before.contains(h));
                    }
                    if h != xv {
                        let u = choose|u: int| 0 <= u < k && #[trigger] src.take(k as int)[u] == h;
                        assert(src.take(k + 1)[u] == h);
                    } else {
                        assert(src.take(k + 1)[k as int] == h);
                    }
                }
                if src.take(k + 1).contains(h) {
                    let u = choose|u: int| 0 <= u < k + 1 && #[trigger] src.take(k + 1)[u] == h;
                    if u < k {
                        assert(src.take(k as int)[u] == h);
                        assert(before.contains(h));
                        let t = choose|t: int| 0 <= t < before.len() && before[t] == h;
                        if t < pos {
                            assert(after[t] == h);
                        } else {
                            assert(after[t + 1] == h);
                        }
                    } else {
                        assert(after[pos as int] == h);
                    }
                }
            }
        }
    }
    proof {
        assert(src.take(src.len() as int) =~= src);
        assert forall|i: int, j: int| 0 <= i < j < out@.len() implies (#[trigger] out@[i]).0 < (
        #[trigger] out@[j]).0 || (out@[i].0 == out@[j].0 && seq_lt(out@[i].1@, out@[j].1@)) by {
            assert(hit_lt(hits_view(out@)[i], hits_view(out@)[j]));
            assert(hits_view(out@)[i] == (out@[i].0, out@[i].1@));
            assert(hits_view(out@)[j] == (out@[j].0, out@[j].1@));
        }
    }
    out
}

/// The least bundled rank of `w` across `packs`, or `u32::MAX` when no pack
/// ranks it.
pub open spec fn min_rank(packs: Seq<LexiconPack>, w: Seq<char>) -> u32
    decreases packs.len(),
{
    if packs.len() == 0 {
        u32::MAX
    } else {
        let a = min_rank(packs.drop_last(), w);
        let b = rank_or_last(packs.last().rank@, w);
        if b < a {
            b
        } else {
            a
        }
    }
}

/// A word's least rank across packs is at most what any pack gives it (an
/// unranked word counting as `u32::MAX`), and is either what some pack gives
/// it or `u32::MAX`.
pub proof fn min_rank_is_the_least_pack_rank(packs: Seq<LexiconPack>, w: Seq<char>)
    ensures
        forall|k: int| 0 <= k < packs.len() ==> min_rank(packs, w) <= rank_or_last((#[trigger] packs[k]).rank@, w),
        min_rank(packs, w) == u32::MAX || exists|k: int|
            0 <= k < packs.len() && min_rank(packs, w) == rank_or_last((#[trigger] packs[k]).rank@, w),
    decreases packs.len(),
{
    if packs.len() > 0 {
        let d = packs.drop_last();
        min_rank_is_the_least_pack_rank(d, w);
        let n = packs.len() - 1;
        assert(packs[n] == packs.last());
        assert forall|k: int| 0 <= k < packs.len() implies min_rank(packs, w) <= rank_or_last((#[trigger] packs[k]).rank@, w) by {
            if k < n {
                assert(d[k] == packs[k]);
            }
        }
        if min_rank(packs, w) != u32::MAX && min_rank(packs, w) == min_rank(d, w) {
            let k = choose|k: int| 0 <= k < d.len() && min_rank(d, w) == rank_or_last((#[trigger] d[k]).rank@, w);
            assert(d[k] == packs[k]);
        }
    }
}

/// `acc` extended with the accent variants among `ws` (from the pack tagged
/// `lang`): words in the exact fold group `folded` whose spelling differs
/// from the typed one beyond case, each spelling once up to case, ranked by
/// their least rank across `all`.
pub open spec fn add_variants(
    acc: Seq<(Seq<char>, Seq<char>, u32)>,
    ws: Seq<Seq<char>>,
    lang: Seq<char>,
    all: Seq<LexiconPack>,
    folded: Seq<char>,
    lower_prefix: Seq<char>,
) -> Seq<(Seq<char>, Seq<char>, u32)>
    decreases ws.len(),
{
    if ws.len() == 0 {
        acc
    } else {
        let a = add_variants(acc, ws.drop_last(), lang, all, folded, lower_prefix);
        let w = ws.last();
        if fold_spec(w) != folded || lowercase_text(w) == lower_prefix {
            a
        } else if exists|i: int| 0 <= i < a.len() && lowercase_text((#[trigger] a[i]).0) == lowercase_text(w) {
            a
        } else {
            a.push((w, lang, min_rank(all, w)))
        }
    }
}

/// The accent variants gathered from `packs` in order.
pub open spec fn variant_hits(
    all: Seq<LexiconPack>,
    packs: Seq<LexiconPack>,
    folded: Seq<char>,
    lower_prefix: Seq<char>,
) -> Seq<(Seq<char>, Seq<char>, u32)>
    decreases packs.len(),
{
    if packs.len() == 0 {
        Seq::empty()
    } else {
        let p = packs.last();
        add_variants(
            variant_hits(all, packs.drop_last(), folded, lower_prefix),
            p.dict.fold_prefix_spec(folded),
            p.lang@,
            all,
            folded,
            lower_prefix,
        )
    }
}

/// `x` inserted into a rank-sorted list after every entry of rank at most its
/// own.
pub open spec fn insert_by_rank(
    s: Seq<(Seq<char>, Seq<char>, u32)>,
    x: (Seq<char>, Seq<char>, u32),
) -> Seq<(Seq<char>, Seq<char>, u32)>
    decreases s.len(),
{
    if s.len() == 0 || s.last().2 <= x.2 {
        s.push(x)
    } else {
        insert_by_rank(s.drop_last(), x).push(s.last())
    }
}

/// `s` stably sorted by rank: equal ranks keep their order.
pub open spec fn stable_by_rank(s: Seq<(Seq<char>, Seq<char>, u32)>) -> Seq<(Seq<char>, Seq<char>, u32)>
    decreases s.len(),
{
    if s.len() == 0 {
        s
    } else {
        insert_by_rank(stable_by_rank(s.drop_last()), s.last())
    }
}

/// A hit is an accent variant of the typed token: a word some pack of
/// `packs` lists in the fold group's completions, tagged with that pack's
/// language, in the exact fold group, spelt differently beyond case, and
/// ranked by its least rank across `all`.
pub open spec fn is_variant_hit(
    all: Seq<LexiconPack>,
    packs: Seq<LexiconPack>,
    folded: Seq<char>,
    lower_prefix: Seq<char>,
    h: (Seq<char>, Seq<char>, u32),
) -> bool {
    &&& exists|k: int|
        0 <= k < packs.len() && (#[trigger] packs[k]).lang@ == h.1 && packs[k].dict.fold_prefix_spec(
            folded,
        ).contains(h.0)
    &&& fold_spec(h.0) == folded
    &&& lowercase_text(h.0) != lower_prefix
    &&& h.2 == min_rank(all, h.0)
}

/// No two entries spell the same word up to case.
pub open spec fn distinct_up_to_case(s: Seq<(Seq<char>, Seq<char>, u32)>) -> bool {
    forall|i: int, j: int| 0 <= i < j < s.len() ==> lowercase_text((#[trigger] s[i]).0) != lowercase_text(
        (#[trigger] s[j]).0,
    )
}

/// Ranks never decrease along the list.
pub open spec fn rank_ordered(s: Seq<(Seq<char>, Seq<char>, u32)>) -> bool {
    forall|i: int, j: int| 0 <= i < j < s.len() ==> (#[trigger] s[i]).2 <= (#[trigger] s[j]).2
}

/// Adding variants keeps every entry a hit and no two equal up to case.
proof fn lemma_add_variants(
    acc: Seq<(Seq<char>, Seq<char>, u32)>,
    ws: Seq<Seq<char>>,
    all: Seq<LexiconPack>,
    packs: Seq<LexiconPack>,
    k: int,
    folded: Seq<char>,
    lower_prefix: Seq<char>,
)
    requires
        0 <= k < packs.len(),
        forall|x: Seq<char>| #[trigger] ws.contains(x) ==> packs[k].dict.fold_prefix_spec(folded).contains(x),
        forall|i: int| 0 <= i < acc.len() ==> is_variant_hit(all, packs, folded, lower_prefix, #[trigger] acc[i]),
        distinct_up_to_case(acc),
    ensures
        forall|i: int|
            0 <= i < add_variants(acc, ws, packs[k].lang@, all, folded, lower_prefix).len() ==> is_variant_hit(
                all,
                packs,
                folded,
                lower_prefix,
                #[trigger] add_variants(acc, ws, packs[k].lang@, all, folded, lower_prefix)[i],
            ),
        distinct_up_to_case(add_variants(acc, ws, packs[k].lang@, all, folded, lower_prefix)),
    decreases ws.len(),
{
    if ws.len() > 0 {
        let t = ws.drop_last();
        assert forall|x: Seq<char>| #[trigger] t.contains(x) implies packs[k].dict.fold_prefix_spec(folded).contains(x) by {
            let i = choose|i: int| 0 <= i < t.len() && t[i] == x;
            assert(ws[i] == x);
            assert(ws.contains(x));
        }
        lemma_add_variants(acc, t, all, packs, k, folded, lower_prefix);
        let a = add_variants(acc, t, packs[k].lang@, all, folded, lower_prefix);
        let w = ws.last();
        assert(ws.contains(w)) by {
            assert(ws[ws.len() - 1] == w);
        }
        let r = add_variants(acc, ws, packs[k].lang@, all, folded, lower_prefix);
        if !(fold_spec(w) != folded || lowercase_text(w) == lower_prefix) && !(exists|i: int|
            0 <= i < a.len() && lowercase_text((#[trigger] a[i]).0) == lowercase_text(w)) {
            let h = (w, packs[k].lang@, min_rank(all, w));
            assert(r == a.push(h));
            assert(is_variant_hit(all, packs, folded, lower_prefix, h)) by {
                assert(packs[k].lang@ == h.1);
            }
            assert forall|i: int| 0 <= i < r.len() implies is_variant_hit(all, packs, folded, lower_prefix, #[trigger] r[i]) by {
                if i < a.len() {
                    assert(r[i] == a[i]);
                }
            }
            assert forall|i: int, j: int| 0 <= i < j < r.len() implies lowercase_text((#[trigger] r[i]).0)
                != lowercase_text((#[trigger] r[j]).0) by {
                assert(r[i] == a[i]);
                if j < a.len() {
                    assert(r[j] == a[j]);
                }
            }
        }
    }
}

/// Every gathered variant is a hit, and no two are equal up to case.
proof fn lemma_variant_hits(all: Seq<LexiconPack>, packs: Seq<LexiconPack>, folded: Seq<char>, lower_prefix: Seq<char>)
    ensures
        forall|i: int|
            0 <= i < variant_hits(all, packs, folded, lower_prefix).len() ==> is_variant_hit(
                all,
                packs,
                folded,
                lower_prefix,
                #[trigger] variant_hits(all, packs, folded, lower_prefix)[i],
            ),
        distinct_up_to_case(variant_hits(all, packs, folded, lower_prefix)),
    decreases packs.len(),
{
    if packs.len() > 0 {
        let d = packs.drop_last();
        lemma_variant_hits(all, d, folded, lower_prefix);
        let acc = variant_hits(all, d, folded, lower_prefix);
        assert forall|i: int| 0 <= i < acc.len() implies is_variant_hit(all, packs, folded, lower_prefix, #[trigger] acc[i]) by {
            assert(is_variant_hit(all, d, folded, lower_prefix, acc[i]));
            let k = choose|k: int|
                0 <= k < d.len() && (#[trigger] d[k]).lang@ == acc[i].1 && d[k].dict.fold_prefix_spec(folded).contains(
                    acc[i].0,
                );
            assert(packs[k] == d[k]);
        }
        let k = packs.len() - 1;
        assert(packs[k] == packs.last());
        lemma_add_variants(acc, packs[k].dict.fold_prefix_spec(folded), all, packs, k, folded, lower_prefix);
    }
}

/// Inserting by rank adds exactly `x`, keeps ranks ordered, and keeps the
/// entries distinct up to case when `x` differs from all of them.
proof fn lemma_insert_by_rank(s: Seq<(Seq<char>, Seq<char>, u32)>, x: (Seq<char>, Seq<char>, u32))
    ensures
        insert_by_rank(s, x).len() == s.len() + 1,
        forall|y: (Seq<char>, Seq<char>, u32)| #[trigger] insert_by_rank(s, x).contains(y) <==> (s.contains(y) || y == x),
        rank_ordered(s) ==> rank_ordered(insert_by_rank(s, x)),
        distinct_up_to_case(s) && (forall|i: int| 0 <= i < s.len() ==> lowercase_text((#[trigger] s[i]).0) != lowercase_text(x.0))
            ==> distinct_up_to_case(insert_by_rank(s, x)),
    decreases s.len(),
{
    let r = insert_by_rank(s, x);
    if s.len() == 0 || s.last().2 <= x.2 {
        assert(r == s.push(x));
        assert forall|y: (Seq<char>, Seq<char>, u32)| #[trigger] r.contains(y) <==> (s.contains(y) || y == x) by {
            if r.contains(y) {
                let i = choose|i: int| 0 <= i < r.len() && r[i] == y;
                if i < s.len() {
                    assert(s[i] == y);
                }
            }
            if s.contains(y) {
                let i = choose|i: int| 0 <= i < s.len() && s[i] == y;
                assert(r[i] == y);
            }
            if y == x {
                assert(r[s.len() as int] == y);
            }
        }
        if rank_ordered(s) {
            assert forall|i: int, j: int| 0 <= i < j < r.len() implies (#[trigger] r[i]).2 <= (#[trigger] r[j]).2 by {
                assert(r[i] == s[i]);
                if j < s.len() {
                    assert(r[j] == s[j]);
                } else if i < s.len() - 1 {
                    assert(s[i].2 <= s[s.len() - 1].2);
                }
            }
        }
        if distinct_up_to_case(s) && (forall|i: int| 0 <= i < s.len() ==> lowercase_text((#[trigger] s[i]).0) != lowercase_text(x.0)) {
            assert forall|i: int, j: int| 0 <= i < j < r.len() implies lowercase_text((#[trigger] r[i]).0)
                != lowercase_text((#[trigger] r[j]).0) by {
                assert(r[i] == s[i]);
                if j < s.len() {
                    assert(r[j] == s[j]);
                }
            }
        }
    } else {
        let d = s.drop_last();
        let l = s.last();
        lemma_insert_by_rank(d, x);
        let inner = insert_by_rank(d, x);
        assert(r == inner.push(l));
        assert forall|y: (Seq<char>, Seq<char>, u32)| #[trigger] r.contains(y) <==> (s.contains(y) || y == x) by {
            if r.contains(y) {
                let i = choose|i: int| 0 <= i < r.len() && r[i] == y;
                if i < inner.len() {
                    assert(inner[i] == y);
                    assert(inner.contains(y));
                    if d.contains(y) {
                        let a = choose|a: int| 0 <= a < d.len() && d[a] == y;
                        assert(s[a] == y);
                    }
                } else {
                    assert(s[s.len() - 1] == y);
                }
            }
            if s.contains(y) {
                let i = choose|i: int| 0 <= i < s.len() && s[i] == y;
                if i < s.len() - 1 {
                    assert(d[i] == y);
                    assert(inner.contains(y));
                    let a = choose|a: int| 0 <= a < inner.len() && inner[a] == y;
                    assert(r[a] == y);
                } else {
                    assert(r[inner.len() as int] == y);
                }
            }
            if y == x {
                assert(inner.contains(y));
                let a = choose|a: int| 0 <= a < inner.len() && inner[a] == y;
                assert(r[a] == y);
            }
        }
        if rank_ordered(s) {
            assert(rank_ordered(d)) by {
                assert forall|i: int, j: int| 0 <= i < j < d.len() implies (#[trigger] d[i]).2 <= (#[trigger] d[j]).2 by {
                    assert(d[i] == s[i] && d[j] == s[j]);
                }
            }
            assert forall|i: int, j: int| 0 <= i < j < r.len() implies (#[trigger] r[i]).2 <= (#[trigger] r[j]).2 by {
                assert(r[i] == inner[i]);
                if j < inner.len() {
                    assert(r[j] == inner[j]);
                } else {
                    assert(inner.contains(inner[i]));
                    if d.contains(inner[i]) {
                        let a = choose|a: int| 0 <= a < d.len() && d[a] == inner[i];
                        assert(s[a] == d[a]);
                        assert(s[a].2 <= s[s.len() - 1].2);
                    }
                }
            }
        }
        if distinct_up_to_case(s) && (forall|i: int| 0 <= i < s.len() ==> lowercase_text((#[trigger] s[i]).0) != lowercase_text(x.0)) {
            assert(distinct_up_to_case(d)) by {
                assert forall|i: int, j: int| 0 <= i < j < d.len() implies lowercase_text((#[trigger] d[i]).0)
                    != lowercase_text((#[trigger] d[j]).0) by {
                    assert(d[i] == s[i] && d[j] == s[j]);
                }
            }
            assert forall|i: int| 0 <= i < d.len() implies lowercase_text((#[trigger] d[i]).0) != lowercase_text(x.0) by {
                assert(d[i] == s[i]);
            }
            assert forall|i: int, j: int| 0 <= i < j < r.len() implies lowercase_text((#[trigger] r[i]).0)
                != lowercase_text((#[trigger] r[j]).0) by {
                assert(r[i] == inner[i]);
                if j < inner.len() {
                    assert(r[j] == inner[j]);
                } else {
                    assert(r[j] == l);
                    assert(inner.contains(inner[i]));
                    if d.contains(inner[i]) {
                        let a = choose|a: int| 0 <= a < d.len() && d[a] == inner[i];
                        assert(s[a] == d[a]);
                        assert(lowercase_text(s[a].0) != lowercase_text(s[s.len() - 1].0));
                    } else {
                        assert(lowercase_text(s[s.len() - 1].0) != lowercase_text(x.0));
                    }
                }
            }
        }
    }
}

/// Sorting by rank keeps exactly the entries, orders them by rank, and keeps
/// them distinct up to case.
proof fn lemma_stable_by_rank(s: Seq<(Seq<char>, Seq<char>, u32)>)
    ensures
        stable_by_rank(s).len() == s.len(),
        forall|y: (Seq<char>, Seq<char>, u32)| #[trigger] stable_by_rank(s).contains(y) <==> s.contains(y),
        rank_ordered(stable_by_rank(s)),
        distinct_up_to_case(s) ==> distinct_up_to_case(stable_by_rank(s)),
    decreases s.len(),
{
    if s.len() > 0 {
        let d = s.drop_last();
        lemma_stable_by_rank(d);
        let sd = stable_by_rank(d);
        lemma_insert_by_rank(sd, s.last());
        assert forall|y: (Seq<char>, Seq<char>, u32)| #[trigger] stable_by_rank(s).contains(y) <==> s.contains(y) by {
            if d.contains(y) {
                let a = choose|a: int| 0 <= a < d.len() && d[a] == y;
                assert(s[a] == y);
            }
            if s.contains(y) {
                let a = choose|a: int| 0 <= a < s.len() && s[a] == y;
                if a < s.len() - 1 {
                    assert(d[a] == y);
                }
            }
        }
        if distinct_up_to_case(s) {
            assert(distinct_up_to_case(d)) by {
                assert forall|i: int, j: int| 0 <= i < j < d.len() implies lowercase_text((#[trigger] d[i]).0)
                    != lowercase_text((#[trigger] d[j]).0) by {
                    assert(d[i] == s[i] && d[j] == s[j]);
                }
            }
            assert forall|i: int| 0 <= i < sd.len() implies lowercase_text((#[trigger] sd[i]).0) != lowercase_text(
                s.last().0,
            ) by {
                assert(sd.contains(sd[i]));
                let a = choose|a: int| 0 <= a < d.len() && d[a] == sd[i];
                assert(s[a] == d[a]);
            }
        }
    }
}

/// `y` occurs in `g` at an earlier position than `z`.
pub open spec fn appears_before(
    g: Seq<(Seq<char>, Seq<char>, u32)>,
    y: (Seq<char>, Seq<char>, u32),
    z: (Seq<char>, Seq<char>, u32),
) -> bool {
    exists|a: int, b: int| 0 <= a < b < g.len() && #[trigger] g[a] == y && #[trigger] g[b] == z
}

/// Entries of equal rank keep the order they have in `g`.
pub open spec fn stable_against(h: Seq<(Seq<char>, Seq<char>, u32)>, g: Seq<(Seq<char>, Seq<char>, u32)>) -> bool {
    forall|i: int, j: int|
        0 <= i < j < h.len() && (#[trigger] h[i]).2 == (#[trigger] h[j]).2 ==> appears_before(g, h[i], h[j])
}

/// Inserting by rank puts `x` at some position with only higher ranks after it.
proof fn lemma_insert_by_rank_position(s: Seq<(Seq<char>, Seq<char>, u32)>, x: (Seq<char>, Seq<char>, u32)) -> (p: int)
    ensures
        0 <= p <= s.len(),
        insert_by_rank(s, x) == s.insert(p, x),
        forall|k: int| p <= k < s.len() ==> (#[trigger] s[k]).2 > x.2,
    decreases s.len(),
{
    if s.len() == 0 || s.last().2 <= x.2 {
        assert(s.push(x) =~= s.insert(s.len() as int, x));
        s.len() as int
    } else {
        let d = s.drop_last();
        let q = lemma_insert_by_rank_position(d, x);
        assert(d.insert(q, x).push(s.last()) =~= s.insert(q, x));
        assert forall|k: int| q <= k < s.len() implies (#[trigger] s[k]).2 > x.2 by {
            if k < d.len() {
                assert(s[k] == d[k]);
            }
        }
        q
    }
}

/// Sorting by rank is stable: entries of equal rank keep their order.
proof fn lemma_stable_by_rank_is_stable(s: Seq<(Seq<char>, Seq<char>, u32)>)
    ensures
        stable_against(stable_by_rank(s), s),
    decreases s.len(),
{
    if s.len() > 0 {
        let d = s.drop_last();
        let x = s.last();
        lemma_stable_by_rank_is_stable(d);
        lemma_stable_by_rank(d);
        let sd = stable_by_rank(d);
        let p = lemma_insert_by_rank_position(sd, x);
        let h = stable_by_rank(s);
        assert(h == sd.insert(p, x));
        assert forall|i: int, j: int| 0 <= i < j < h.len() && (#[trigger] h[i]).2 == (#[trigger] h[j]).2 implies appears_before(
            s,
            h[i],
            h[j],
        ) by {
            if i == p {
                assert(h[j] == sd[j - 1]);
            } else if j == p {
                assert(h[i] == sd[i]);
                assert(sd.contains(sd[i]));
                let a = choose|a: int| 0 <= a < d.len() && d[a] == sd[i];
                assert(s[a] == h[i] && s[s.len() - 1] == h[j]);
            } else {
                let i2 = if i < p { i } else { i - 1 };
                let j2 = if j < p { j } else { j - 1 };
                assert(h[i] == sd[i2] && h[j] == sd[j2]);
                assert(appears_before(d, sd[i2], sd[j2]));
                let (a, b) = choose|a: int, b: int| 0 <= a < b < d.len() && #[trigger] d[a] == sd[i2] && #[trigger] d[b] == sd[j2];
                assert(s[a] == d[a] && s[b] == d[b]);
            }
        }
    }
}

/// What the accent variants of `prefix` across `packs` are, directly: each
/// is a word a pack lists among the fold group's completions, tagged with
/// that pack's language, folding exactly to the typed token's fold, spelt
/// differently beyond case, with its least rank across the packs; no two are
/// the same word up to case; ranks never decrease along the list; and words
/// of equal rank keep the order in which the packs were gathered.
pub proof fn accent_variants_are_the_fold_group(packs: Seq<LexiconPack>, prefix: Seq<char>)
    ensures
        forall|i: int|
            0 <= i < stable_by_rank(
                variant_hits(packs, packs, fold_spec(prefix), lowercase_text(prefix)),
            ).len() ==> is_variant_hit(
                packs,
                packs,
                fold_spec(prefix),
                lowercase_text(prefix),
                #[trigger] stable_by_rank(variant_hits(packs, packs, fold_spec(prefix), lowercase_text(prefix)))[i],
            ),
        distinct_up_to_case(stable_by_rank(variant_hits(packs, packs, fold_spec(prefix), lowercase_text(prefix)))),
        rank_ordered(stable_by_rank(variant_hits(packs, packs, fold_spec(prefix), lowercase_text(prefix)))),
        stable_against(
            stable_by_rank(variant_hits(packs, packs, fold_spec(prefix), lowercase_text(prefix))),
            variant_hits(packs, packs, fold_spec(prefix), lowercase_text(prefix)),
        ),
{
    let g = variant_hits(packs, packs, fold_spec(prefix), lowercase_text(prefix));
    lemma_variant_hits(packs, packs, fold_spec(prefix), lowercase_text(prefix));
    lemma_stable_by_rank(g);
    lemma_stable_by_rank_is_stable(g);
    let h = stable_by_rank(g);
    assert forall|i: int| 0 <= i < h.len() implies is_variant_hit(
        packs,
        packs,
        fold_spec(prefix),
        lowercase_text(prefix),
        #[trigger] h[i],
    ) by {
        assert(h.contains(h[i]));
        let a = choose|a: int| 0 <= a < g.len() && g[a] == h[i];
    }
}

/// A variant list as plain values.
pub open spec fn variants_view(v: Seq<(String, String, u32)>) -> Seq<(Seq<char>, Seq<char>, u32)> {
    v.map_values(|h: (String, String, u32)| (h.0@, h.1@, h.2))
}

/// The least rank of `w` across `packs`.
fn least_rank(packs: &[LexiconPack], w: &str) -> (r: u32)
    requires
        packs_wf(packs@),
    ensures
        r == min_rank(packs@, w@),
{
    let mut best: u32 = u32::MAX;
    proof {
        assert(packs@.take(0) =~= Seq::<LexiconPack>::empty());
    }
    for q in 0..packs.len()
        invariant
            packs_wf(packs@),
            best == min_rank(packs@.take(q as int), w@),
    {
        proof {
            assert(packs@[q as int].rank.wf());
            assert(packs@.take(q + 1).drop_last() =~= packs@.take(q as int));
            assert(packs@.take(q + 1).last() == packs@[q as int]);
        }
        match packs[q].rank.get(w) {
            Some(r) => {
                if *r < best {
                    best = *r;
                }
            },
            None => {},
        }
    }
    proof {
        assert(packs@.take(packs@.len() as int) =~= packs@);
    }
    best
}

/// Dictionary words in `prefix`'s exact accent-fold group whose spelling
/// differs from what was typed (beyond case), each spelling once up to case,
/// gathered pack by pack, then stably ordered by least bundled rank
/// (commonest first) as `(word, language, rank)`.
pub fn accent_variant_hits(packs: &[LexiconPack], prefix: &str) -> (r: Vec<(String, String, u32)>)
    requires
        packs_wf(packs@),
    ensures
        variants_view(r@) == stable_by_rank(
            variant_hits(packs@, packs@, fold_spec(prefix@), lowercase_text(prefix@)),
        ),
{
    let folded = fold(prefix);
    let lower_prefix = text_to_lowercase(prefix);
    let ghost fv = folded@;
    let ghost lv = lower_prefix@;
    let mut hits: Vec<(String, String, u32)> = Vec::new();
    let mut seen: Vec<String> = Vec::new();
    proof {
        assert(packs@.take(0) =~= Seq::<LexiconPack>::empty());
        assert(variants_view(hits@) =~= Seq::<(Seq<char>, Seq<char>, u32)>::empty());
    }
    for p in 0..packs.len()
        invariant
            packs_wf(packs@),
            fv == folded@,
            lv == lower_prefix@,
            fv == fold_spec(prefix@),
            lv == lowercase_text(prefix@),
            seen@.len() == hits@.len(),
            forall|i: int| 0 <= i < hits@.len() ==> (#[trigger] seen@[i])@ == lowercase_text(hits@[i].0@),
            variants_view(hits@) == variant_hits(packs@, packs@.take(p as int), fv, lv),
    {
        proof {
            assert(packs@[p as int].dict.wf());
        }
        let ws = packs[p].dict.fold_prefix(folded.as_str());
        let ghost wv = texts(ws@);
        let ghost start = variants_view(hits@);
        proof {
            assert(wv.take(0) =~= Seq::<Seq<char>>::empty());
        }
        for k in 0..ws.len()
            invariant
                packs_wf(packs@),
                p < packs@.len(),
                fv == folded@,
                lv == lower_prefix@,
                wv == texts(ws@),
                seen@.len() == hits@.len(),
                forall|i: int| 0 <= i < hits@.len() ==> (#[trigger] seen@[i])@ == lowercase_text(hits@[i].0@),
                variants_view(hits@) == add_variants(start, wv.take(k as int), packs@[p as int].lang@, packs@, fv, lv),
        {
            let w = &ws[k];
            let ghost a = variants_view(hits@);
            proof {
                assert(wv.take(k + 1).drop_last() =~= wv.take(k as int));
                assert(wv.take(k + 1).last() == w@);
            }
            let fw = fold(w.as_str());
            let lw = text_to_lowercase(w.as_str());
            if same_text(fw.as_str(), folded.as_str()) && !same_text(lw.as_str(), lower_prefix.as_str()) {
                let mut dup = false;
                let mut j: usize = 0;
                while j < seen.len()
                    invariant
                        a == variants_view(hits@),
                        seen@.len() == hits@.len(),
                        forall|i: int| 0 <= i < hits@.len() ==> (#[trigger] seen@[i])@ == lowercase_text(hits@[i].0@),
                        j <= seen@.len(),
                        dup == exists|i: int| 0 <= i < j && lowercase_text((#[trigger] a[i]).0) == lw@,
                    decreases seen@.len() - j,
                {
                    if same_text(seen[j].as_str(), lw.as_str()) {
                        dup = true;
                    }
                    proof {
                        assert(a[j as int].0 == hits@[j as int].0@);
                    }
                    j = j + 1;
                }
                if !dup {
                    let r = least_rank(packs, w.as_str());
                    let lang = packs[p].lang.clone();
                    hits.push((w.clone(), lang, r));
                    seen.push(lw);
                    proof {
                        assert(variants_view(hits@) =~= a.push((w@, packs@[p as int].lang@, min_rank(packs@, w@))));
                    }
                }
            }
        }
        proof {
            assert(wv.take(wv.len() as int) =~= wv);
            assert(packs@.take(p + 1).drop_last() =~= packs@.take(p as int));
            assert(packs@.take(p + 1).last() == packs@[p as int]);
        }
    }
    proof {
        assert(packs@.take(packs@.len() as int) =~= packs@);
    }
    let ghost g = variants_view(hits@);
    let mut out: Vec<(String, String, u32)> = Vec::new();
    proof {
        assert(g.take(0) =~= Seq::<(Seq<char>, Seq<char>, u32)>::empty());
        assert(variants_view(out@) =~= Seq::<(Seq<char>, Seq<char>, u32)>::empty());
    }
    for k in 0..hits.len()
        invariant
            g == variants_view(hits@),
            variants_view(out@) == stable_by_rank(g.take(k as int)),
    {
        let x = (hits[k].0.clone(), hits[k].1.clone(), hits[k].2);
        let ghost xv = (x.0@, x.1@, x.2);
        let ghost o = variants_view(out@);
        let mut pos: usize = out.len();
        proof {
            assert(o.take(pos as int) =~= o);
            assert(o.skip(pos as int) =~= Seq::<(Seq<char>, Seq<char>, u32)>::empty());
        }
        while pos > 0 && out[pos - 1].2 > x.2
            invariant
                pos <= out@.len(),
                o == variants_view(out@),
                xv == (x.0@, x.1@, x.2),
                insert_by_rank(o, xv) == insert_by_rank(o.take(pos as int), xv) + o.skip(pos as int),
            decreases pos,
        {
            proof {
                let t = o.take(pos as int);
                assert(t.last() == o[pos - 1]);
                assert(t.drop_last() =~= o.take(pos - 1));
                assert(o.skip(pos - 1) =~= seq![o[pos - 1]] + o.skip(pos as int));
                assert(insert_by_rank(t, xv) == insert_by_rank(o.take(pos - 1), xv).push(o[pos - 1]));
                assert(insert_by_rank(o.take(pos - 1), xv).push(o[pos - 1]) + o.skip(pos as int) =~= insert_by_rank(
                    o.take(pos - 1),
                    xv,
                ) + o.skip(pos - 1));
            }
            pos = pos - 1;
        }
        out.insert(pos, x);
        proof {
            assert(insert_by_rank(o.take(pos as int), xv) == o.take(pos as int).push(xv));
            assert(variants_view(out@) =~= o.take(pos as int).push(xv) + o.skip(pos as int));
            assert(g.take(k + 1).drop_last() =~= g.take(k as int));
            assert(g.take(k + 1).last() == xv);
        }
    }
    proof {
        assert(g.take(g.len() as int) =~= g);
    }
    out
}

/// `m` merged with `r`, keeping the smaller rank where both rank a word.
pub open spec fn merge_min(m: Map<Seq<char>, u32>, r: Map<Seq<char>, u32>) -> Map<Seq<char>, u32> {
    Map::new(
        |k: Seq<char>| m.contains_key(k) || r.contains_key(k),
        |k: Seq<char>|
            if m.contains_key(k) && r.contains_key(k) {
                if r[k] < m[k] {
                    r[k]
                } else {
                    m[k]
                }
            } else if m.contains_key(k) {
                m[k]
            } else {
                r[k]
            },
    )
}

/// Every word ranked by some pack, with its best (lowest) rank.
pub open spec fn merged_ranks(packs: Seq<LexiconPack>) -> Map<Seq<char>, u32>
    decreases packs.len(),
{
    if packs.len() == 0 {
        Map::empty()
    } else {
        merge_min(merged_ranks(packs.drop_last()), packs.last().rank@)
    }
}

/// The merged rank table holds exactly the words some pack ranks, each with
/// the best (lowest) rank any pack gives it: no pack ranks it better, and
/// some pack ranks it so.
pub proof fn merged_rank_is_the_best_pack_rank(packs: Seq<LexiconPack>, w: Seq<char>)
    ensures
        merged_ranks(packs).contains_key(w) <==> exists|k: int| 0 <= k < packs.len() && (#[trigger] packs[k]).rank@.contains_key(w),
        forall|k: int|
            0 <= k < packs.len() && (#[trigger] packs[k]).rank@.contains_key(w) ==> merged_ranks(packs)[w]
                <= packs[k].rank@[w],
        merged_ranks(packs).contains_key(w) ==> exists|k: int|
            0 <= k < packs.len() && (#[trigger] packs[k]).rank@.contains_key(w) && packs[k].rank@[w] == merged_ranks(packs)[w],
    decreases packs.len(),
{
    if packs.len() > 0 {
        let d = packs.drop_last();
        merged_rank_is_the_best_pack_rank(d, w);
        let n = packs.len() - 1;
        assert(packs[n] == packs.last());
        assert forall|k: int| 0 <= k < d.len() implies packs[k] == #[trigger] d[k] by {}
        if exists|k: int| 0 <= k < packs.len() && (#[trigger] packs[k]).rank@.contains_key(w) {
            let k = choose|k: int| 0 <= k < packs.len() && (#[trigger] packs[k]).rank@.contains_key(w);
            if k < n {
                assert(d[k] == packs[k]);
            }
        }
        if merged_ranks(packs).contains_key(w) {
            if merged_ranks(d).contains_key(w) {
                let k = choose|k: int|
                    0 <= k < d.len() && (#[trigger] d[k]).rank@.contains_key(w) && d[k].rank@[w] == merged_ranks(d)[w];
                assert(packs[k] == d[k]);
            }
        }
        assert forall|k: int|
            0 <= k < packs.len() && (#[trigger] packs[k]).rank@.contains_key(w) implies merged_ranks(packs)[w]
                <= packs[k].rank@[w] by {
            if k < n {
                assert(d[k] == packs[k]);
            }
        }
    }
}

/// The swipe index over the active lexicons, with the merged `word -> rank`
/// table the scorer discounts by: a word in several languages keeps its best
/// rank. Words are indexed in ascending order.
pub fn build_gesture_index(packs: &[LexiconPack]) -> (r: (GestureIndex, WordCounts))
    requires
        packs_wf(packs@),
    ensures
        r.1.wf(),
        r.1@ == merged_ranks(packs@),
        r.0.wf(),
        exists|pairs: Seq<(String, u32)>|
            #![trigger text_keys(pairs)]
            sorted_by_text(pairs) && text_map(pairs) == merged_ranks(packs@) && r.0@ == indexed(text_keys(pairs)),
{
    let mut rank = WordCounts::new();
    proof {
        assert(packs@.take(0) =~= Seq::<LexiconPack>::empty());
        assert(rank@ =~= merged_ranks(packs@.take(0)));
    }
    for p in 0..packs.len()
        invariant
            packs_wf(packs@),
            rank.wf(),
            rank@ == merged_ranks(packs@.take(p as int)),
    {
        proof {
            assert(packs@[p as int].rank.wf());
        }
        let pairs = packs[p].rank.pairs();
        let ghost start = rank@;
        let ghost pr = packs@[p as int].rank@;
        proof {
            lemma_text_map(pairs@);
            assert(pairs@.take(0) =~= Seq::<(String, u32)>::empty());
            assert(merge_min(start, text_map(pairs@.take(0))) =~= start);
        }
        for k in 0..pairs.len()
            invariant
                rank.wf(),
                sorted_by_text(pairs@),
                rank@ == merge_min(start, text_map(pairs@.take(k as int))),
        {
            let (w, r) = (&pairs[k].0, pairs[k].1);
            let ghost t = text_map(pairs@.take(k as int));
            proof {
                assert(pairs@.take(k + 1).drop_last() =~= pairs@.take(k as int));
                assert(pairs@.take(k + 1).last() == pairs@[k as int]);
                assert(!t.contains_key(w@)) by {
                    lemma_text_map(pairs@.take(k as int));
                    if t.contains_key(w@) {
                        let i = choose|i: int| 0 <= i < k && (#[trigger] pairs@.take(k as int)[i]).0@ == w@;
                        assert(pairs@[i] == pairs@.take(k as int)[i]);
                        crate::text::lemma_seq_lt_irreflexive(w@);
                    }
                }
            }
            let keep = match rank.get(w.as_str()) {
                Some(b) => *b <= r,
                None => false,
            };
            if !keep {
                rank.set(w.clone(), r);
            }
            proof {
                assert(rank@ =~= merge_min(start, t.insert(w@, r)));
            }
        }
        proof {
            assert(pairs@.take(pairs@.len() as int) =~= pairs@);
            assert(packs@.take(p + 1).drop_last() =~= packs@.take(p as int));
            assert(packs@.take(p + 1).last() == packs@[p as int]);
            assert(rank@ =~= merged_ranks(packs@.take(p + 1)));
        }
    }
    proof {
        assert(packs@.take(packs@.len() as int) =~= packs@);
    }
    let all = rank.pairs();
    let mut words: Vec<&str> = Vec::new();
    for i in 0..all.len()
        invariant
            words@.len() == i,
            forall|j: int| 0 <= j < i ==> (#[trigger] words@[j])@ == all@[j].0@,
    {
        words.push(all[i].0.as_str());
    }
    proof {
        assert(words@.map_values(|w: &str| w@) =~= text_keys(all@));
    }
    let index = GestureIndex::build(words.as_slice());
    (index, rank)
}

/// Some pack completes `folded` to `w` (within its completion cap).
pub open spec fn completed_by(packs: Seq<LexiconPack>, folded: Seq<char>, w: Seq<char>) -> bool {
    exists|i: int| 0 <= i < packs.len() && (#[trigger] packs[i]).dict.fold_prefix_spec(folded).contains(w)
}

/// `m` cut down to the words satisfying `keep`.
pub open spec fn restricted(m: Map<Seq<char>, u32>, keep: spec_fn(Seq<char>) -> bool) -> Map<
    Seq<char>,
    u32,
> {
    Map::new(|w: Seq<char>| keep(w) && m.contains_key(w), |w: Seq<char>| m[w])
}

/// The learned counts that are positive.
pub open spec fn positive_counts(m: Map<Seq<char>, u32>) -> Map<Seq<char>, u32> {
    Map::new(|w: Seq<char>| count_in(m, w) > 0, |w: Seq<char>| m[w])
}

/// The best (lowest) rank any pack gives `w`, if some pack ranks it.
fn best_rank(packs: &[LexiconPack], w: &str) -> (r: Option<u32>)
    requires
        packs_wf(packs@),
    ensures
        match r {
            Some(x) => merged_ranks(packs@).contains_key(w@) && x == merged_ranks(packs@)[w@],
            None => !merged_ranks(packs@).contains_key(w@),
        },
{
    let mut best: Option<u32> = None;
    proof {
        assert(packs@.take(0) =~= Seq::<LexiconPack>::empty());
    }
    for q in 0..packs.len()
        invariant
            packs_wf(packs@),
            match best {
                Some(x) => merged_ranks(packs@.take(q as int)).contains_key(w@) && x == merged_ranks(
                    packs@.take(q as int),
                )[w@],
                None => !merged_ranks(packs@.take(q as int)).contains_key(w@),
            },
    {
        proof {
            assert(packs@[q as int].rank.wf());
            assert(packs@.take(q + 1).drop_last() =~= packs@.take(q as int));
            assert(packs@.take(q + 1).last() == packs@[q as int]);
        }
        match packs[q].rank.get(w) {
            Some(r) => {
                best = match best {
                    Some(b) => if *r < b {
                        Some(*r)
                    } else {
                        Some(b)
                    },
                    None => Some(*r),
                };
            },
            None => {},
        }
    }
    proof {
        assert(packs@.take(packs@.len() as int) =~= packs@);
    }
    best
}

/// The learned-frequency and bundled-rank tables that ranking `prefix`'s
/// completions needs, restricted to the words some pack completes the folded
/// `prefix` to: `learned`'s positive counts for those words, and their best
/// rank among the packs that rank them. An empty prefix completes to
/// nothing here, so both tables are empty.
pub fn scoped_learned_snapshots(packs: &[LexiconPack], learned: &WordCounts, prefix: &str) -> (r: (
    WordCounts,
    WordCounts,
))
    requires
        packs_wf(packs@),
        learned.wf(),
    ensures
        r.0.wf(),
        r.1.wf(),
        prefix@.len() == 0 ==> r.0@ == Map::<Seq<char>, u32>::empty() && r.1@ == Map::<
            Seq<char>,
            u32,
        >::empty(),
        prefix@.len() > 0 ==> r.0@ == restricted(
            positive_counts(learned@),
            |w: Seq<char>| completed_by(packs@, fold_spec(prefix@), w),
        ),
        prefix@.len() > 0 ==> r.1@ == restricted(
            merged_ranks(packs@),
            |w: Seq<char>| completed_by(packs@, fold_spec(prefix@), w),
        ),
{
    let mut freq = WordCounts::new();
    let mut dict_rank = WordCounts::new();
    if prefix.is_empty() {
        return (freq, dict_rank);
    }
    let folded = fold(prefix);
    let ghost fv = folded@;
    let ghost lm = positive_counts(learned@);
    let ghost rm = merged_ranks(packs@);
    proof {
        assert(freq@ =~= restricted(lm, |w: Seq<char>| completed_by(packs@.take(0), fv, w)));
        assert(dict_rank@ =~= restricted(rm, |w: Seq<char>| completed_by(packs@.take(0), fv, w)));
    }
    for p in 0..packs.len()
        invariant
            packs_wf(packs@),
            learned.wf(),
            freq.wf(),
            dict_rank.wf(),
            fv == folded@,
            lm == positive_counts(learned@),
            rm == merged_ranks(packs@),
            freq@ == restricted(lm, |w: Seq<char>| completed_by(packs@.take(p as int), fv, w)),
            dict_rank@ == restricted(rm, |w: Seq<char>| completed_by(packs@.take(p as int), fv, w)),
    {
        proof {
            assert(packs@[p as int].dict.wf());
        }
        let ws = packs[p].dict.fold_prefix(folded.as_str());
        let ghost wv = texts(ws@);
        let ghost before = |w: Seq<char>| completed_by(packs@.take(p as int), fv, w);
        for k in 0..ws.len()
            invariant
                packs_wf(packs@),
                learned.wf(),
                freq.wf(),
                dict_rank.wf(),
                p < packs@.len(),
                fv == folded@,
                wv == texts(ws@),
                wv == packs@[p as int].dict.fold_prefix_spec(fv),
                lm == positive_counts(learned@),
                rm == merged_ranks(packs@),
                freq@ == restricted(lm, |w: Seq<char>| before(w) || wv.take(k as int).contains(w)),
                dict_rank@ == restricted(rm, |w: Seq<char>| before(w) || wv.take(k as int).contains(w)),
        {
            let w = &ws[k];
            let ghost old_f = freq@;
            let ghost old_r = dict_rank@;
            proof {
                assert(wv[k as int] == w@);
            }
            let f = learned.count_of(w.as_str());
            if f > 0 {
                freq.set(w.clone(), f);
            }
            match best_rank(packs, w.as_str()) {
                Some(b) => {
                    dict_rank.set(w.clone(), b);
                },
                None => {},
            }
            proof {
                assert forall|x: Seq<char>| #[trigger] wv.take(k + 1).contains(x) <==> (wv.take(k as int).contains(x) || x == w@) by {
                    if wv.take(k + 1).contains(x) {
                        let i = choose|i: int| 0 <= i < k + 1 && #[trigger] wv.take(k + 1)[i] == x;
                        if i < k {
                            assert(wv.take(k as int)[i] == x);
                        }
                    }
                    if wv.take(k as int).contains(x) {
                        let i = choose|i: int| 0 <= i < k && #[trigger] wv.take(k as int)[i] == x;
                        assert(wv.take(k + 1)[i] == x);
                    }
                    if x == w@ {
                        assert(wv.take(k + 1)[k as int] == x);
                    }
                }
                assert(freq@ =~= restricted(lm, |w: Seq<char>| before(w) || wv.take(k + 1).contains(w)));
                assert(dict_rank@ =~= restricted(rm, |w: Seq<char>| before(w) || wv.take(k + 1).contains(w)));
            }
        }
        proof {
            assert(wv.take(wv.len() as int) =~= wv);
            assert forall|x: Seq<char>| #[trigger] completed_by(packs@.take(p + 1), fv, x) <==> (before(x) || wv.contains(x)) by {
                let t = packs@.take(p + 1);
                if completed_by(t, fv, x) {
                    let i = choose|i: int| 0 <= i < t.len() && (#[trigger] t[i]).dict.fold_prefix_spec(fv).contains(x);
                    if i < p {
                        assert(packs@.take(p as int)[i] == t[i]);
                    }
                }
                if before(x) {
                    let i = choose|i: int| 0 <= i < p && (#[trigger] packs@.take(p as int)[i]).dict.fold_prefix_spec(fv).contains(x);
                    assert(t[i] == packs@.take(p as int)[i]);
                }
                if wv.contains(x) {
                    assert(t[p as int] == packs@[p as int]);
                }
            }
            assert(freq@ =~= restricted(lm, |w: Seq<char>| completed_by(packs@.take(p + 1), fv, w)));
            assert(dict_rank@ =~= restricted(rm, |w: Seq<char>| completed_by(packs@.take(p + 1), fv, w)));
        }
    }
    proof {
        assert(packs@.take(packs@.len() as int) =~= packs@);
    }
    (freq, dict_rank)
}

/// `true` when some pack completes `prefix` accent-insensitively: the beam
/// search may extend it.
pub fn is_live_prefix(packs: &[LexiconPack], prefix: &str) -> (r: bool)
    requires
        packs_wf(packs@),
    ensures
        r == exists|i: int| 0 <= i < packs@.len() && (#[trigger] packs@[i]).dict.fold_prefix_spec(fold_spec(prefix@)).len() > 0,
{
    let folded = fold(prefix);
    for i in 0..packs.len()
        invariant
            packs_wf(packs@),
            folded@ == fold_spec(prefix@),
            forall|j: int| 0 <= j < i ==> (#[trigger] packs@[j]).dict.fold_prefix_spec(fold_spec(prefix@)).len() == 0,
    {
        proof {
            assert(packs@[i as int].dict.wf());
        }
        let hits = packs[i].dict.fold_prefix(folded.as_str());
        if hits.len() > 0 {
            return true;
        }
    }
    false
}

} // verus!
