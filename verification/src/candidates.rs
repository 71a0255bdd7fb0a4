//! Correction candidates gathered across the active languages, and the
//! choices made among them before and after scoring.
use crate::correction::{ranked_neighbours, ranks_first};
use crate::edit_distance::{edit_distance, levenshtein};
use crate::dictionary::{neighbours, texts};
use crate::ffi_types::{FfiRankCandidate, FfiSource};
use crate::lexicon_packs::{packs_wf, LexiconPack};
use crate::text::{same_text, seq_lt};
use vstd::prelude::*;

verus! {

/// Where a candidate came from.
#[derive(Debug, Clone, Copy, PartialEq, Eq, Structural)]
pub enum Source {
    /// A bundled lexicon.
    Lexicon,
    /// The platform's own dictionary.
    Device,
}

/// One candidate word for the ranker.
#[derive(Debug, Clone, PartialEq, Eq)]
pub struct Candidate {
    /// The candidate word.
    pub word: String,
    /// The language it belongs to.
    pub lang: String,
    /// Where it came from.
    pub source: Source,
    /// Its position within its source's ordering (0 = best).
    pub source_rank: u32,
}

/// A candidate as plain values.
pub open spec fn cand_view(c: Candidate) -> (Seq<char>, Seq<char>, Source, u32) {
    (c.word@, c.lang@, c.source, c.source_rank)
}

/// A candidate list as plain values.
pub open spec fn cands_view(v: Seq<Candidate>) -> Seq<(Seq<char>, Seq<char>, Source, u32)> {
    v.map_values(|c: Candidate| cand_view(c))
}

/// The engine's source for a shell-side source.
pub open spec fn source_of(s: FfiSource) -> Source {
    match s {
        FfiSource::Lexicon => Source::Lexicon,
        FfiSource::Device => Source::Device,
    }
}

impl From<FfiRankCandidate> for Candidate {
    fn from(c: FfiRankCandidate) -> (r: Self) {
        let source = match c.source {
            FfiSource::Lexicon => Source::Lexicon,
            FfiSource::Device => Source::Device,
        };
        Candidate { word: c.word, lang: c.lang, source, source_rank: c.source_rank }
    }
}

impl vstd::std_specs::convert::FromSpecImpl<FfiRankCandidate> for Candidate {
    open spec fn obeys_from_spec() -> bool {
        true
    }

    open spec fn from_spec(c: FfiRankCandidate) -> Candidate {
        Candidate { word: c.word, lang: c.lang, source: source_of(c.source), source_rank: c.source_rank }
    }
}

/// Words strictly ordered commonest first by `rank` (then `str` order).
pub open spec fn ranked_in_order(s: Seq<Seq<char>>, rank: Map<Seq<char>, u32>) -> bool {
    forall|i: int, j: int| 0 <= i < j < s.len() ==> ranks_first(rank, #[trigger] s[i], #[trigger] s[j])
}

/// The one-edit neighbours of `w` among `words`, commonest first by `rank`.
pub open spec fn ranked_spec(words: Set<Seq<char>>, rank: Map<Seq<char>, u32>, w: Seq<char>) -> Seq<Seq<char>> {
    choose|s: Seq<Seq<char>>|
        ranked_in_order(s, rank) && forall|x: Seq<char>| #[trigger] s.contains(x) <==> neighbours(words, w).contains(x)
}

/// Two lists strictly ordered by `ranks_first` holding the same words are
/// the same list.
proof fn lemma_ranked_unique(s1: Seq<Seq<char>>, s2: Seq<Seq<char>>, rank: Map<Seq<char>, u32>)
    requires
        ranked_in_order(s1, rank),
        ranked_in_order(s2, rank),
        forall|x: Seq<char>| #[trigger] s1.contains(x) <==> s2.contains(x),
    ensures
        s1 == s2,
    decreases s1.len(),
{
    if s1.len() == 0 {
        if s2.len() > 0 {
            assert(s2.contains(s2[0]));
            assert(s1.contains(s2[0]));
        }
        assert(s1 =~= s2);
    } else {
        assert(s1.contains(s1[0]));
        assert(s2.len() > 0);
        assert(s2.contains(s2[0]));
        let a = s1[0];
        let b = s2[0];
        if a != b {
            assert(s2.contains(a));
            assert(s1.contains(b));
            let i = choose|i: int| 0 <= i < s2.len() && s2[i] == a;
            let j = choose|j: int| 0 <= j < s1.len() && s1[j] == b;
            assert(i > 0 && j > 0);
            assert(ranks_first(rank, b, a));
            assert(ranks_first(rank, a, b));
            crate::correction::lemma_ranks_first_order(rank, a, b, a);
        }
        let t1 = s1.drop_first();
        let t2 = s2.drop_first();
        assert forall|x: Seq<char>| #[trigger] t1.contains(x) <==> t2.contains(x) by {
            if t1.contains(x) {
                let i = choose|i: int| 0 <= i < t1.len() && t1[i] == x;
                assert(s1[i + 1] == x);
                assert(s1.contains(x));
                let k = choose|k: int| 0 <= k < s2.len() && s2[k] == x;
                if k == 0 {
                    crate::correction::lemma_ranks_first_order(rank, a, a, a);
                    assert(ranks_first(rank, s1[0], s1[i + 1]));
                }
                assert(t2[k - 1] == x);
            }
            if t2.contains(x) {
                let i = choose|i: int| 0 <= i < t2.len() && t2[i] == x;
                assert(s2[i + 1] == x);
                assert(s2.contains(x));
                assert(s1.contains(x));
                let k = choose|k: int| 0 <= k < s1.len() && s1[k] == x;
                if k == 0 {
                    crate::correction::lemma_ranks_first_order(rank, b, b, b);
                    assert(ranks_first(rank, s2[0], s2[i + 1]));
                }
                assert(t1[k - 1] == x);
            }
        }
        lemma_ranked_unique(t1, t2, rank);
        assert(s1 =~= seq![a] + t1);
        assert(s2 =~= seq![b] + t2);
    }
}

/// The lexicon candidates of one ranked neighbour list: each word tagged with
/// the pack's language and its position.
pub open spec fn positioned(ws: Seq<Seq<char>>, lang: Seq<char>) -> Seq<(Seq<char>, Seq<char>, Source, u32)> {
    Seq::new(ws.len(), |i: int| (ws[i], lang, Source::Lexicon, i as u32))
}

/// Every pack's ranked one-edit neighbours of `w`, pack by pack.
pub open spec fn lexicon_candidates(packs: Seq<LexiconPack>, w: Seq<char>) -> Seq<(Seq<char>, Seq<char>, Source, u32)>
    decreases packs.len(),
{
    if packs.len() == 0 {
        Seq::empty()
    } else {
        let p = packs.last();
        lexicon_candidates(packs.drop_last(), w) + positioned(ranked_spec(p.dict.words(), p.rank@, w), p.lang@)
    }
}

/// Correction candidates for `text`: every active language's one-edit
/// neighbours, each ranked within its own language and tagged
/// [`Source::Lexicon`] with its position, followed by the device's candidates.
pub fn gather_candidates(packs: &[LexiconPack], text: &str, device: Vec<Candidate>) -> (r: Vec<Candidate>)
    requires
        packs_wf(packs@),
    ensures
        cands_view(r@) == lexicon_candidates(packs@, text@) + cands_view(device@),
{
    let mut out: Vec<Candidate> = Vec::new();
    proof {
        assert(packs@.take(0) =~= Seq::<LexiconPack>::empty());
        assert(cands_view(out@) =~= lexicon_candidates(packs@.take(0), text@));
    }
    for p in 0..packs.len()
        invariant
            packs_wf(packs@),
            cands_view(out@) == lexicon_candidates(packs@.take(p as int), text@),
    {
        let pack = &packs[p];
        proof {
            assert(packs@[p as int].dict.wf() && packs@[p as int].rank.wf());
        }
        let ns = ranked_neighbours(&pack.dict, &pack.rank, text);
        let ghost ws = texts(ns@);
        proof {
            let spec_ws = ranked_spec(pack.dict.words(), pack.rank@, text@);
            assert(ranked_in_order(ws, pack.rank@)) by {
                assert forall|i: int, j: int| 0 <= i < j < ws.len() implies ranks_first(pack.rank@, #[trigger] ws[i], #[trigger] ws[j]) by {
                    assert(ws[i] == ns@[i]@ && ws[j] == ns@[j]@);
                }
            }
            assert(exists|s: Seq<Seq<char>>| ranked_in_order(s, pack.rank@) && forall|x: Seq<char>| #[trigger] s.contains(x) <==> neighbours(pack.dict.words(), text@).contains(x));
            lemma_ranked_unique(ws, spec_ws, pack.rank@);
        }
        let ghost before = cands_view(out@);
        for k in 0..ns.len()
            invariant
                ws == texts(ns@),
                cands_view(out@) == before + positioned(ws, pack.lang@).take(k as int),
        {
            let c = Candidate { word: ns[k].clone(), lang: pack.lang.clone(), source: Source::Lexicon, source_rank: k as u32 };
            let ghost prev = cands_view(out@);
            proof {
                assert(ws[k as int] == ns@[k as int]@);
                assert(cand_view(c) == positioned(ws, pack.lang@)[k as int]);
            }
            out.push(c);
            proof {
                assert(cands_view(out@) =~= prev.push(cand_view(c)));
                assert(positioned(ws, pack.lang@).take(k + 1) =~= positioned(ws, pack.lang@).take(k as int).push((ws[k as int], pack.lang@, Source::Lexicon, k as u32)));
                assert(cands_view(out@) =~= before + positioned(ws, pack.lang@).take(k + 1));
            }
        }
        proof {
            assert(positioned(ws, pack.lang@).take(ws.len() as int) =~= positioned(ws, pack.lang@));
            assert(packs@.take(p + 1).drop_last() =~= packs@.take(p as int));
            assert(packs@.take(p + 1).last() == packs@[p as int]);
        }
    }
    proof {
        assert(packs@.take(packs@.len() as int) =~= packs@);
    }
    let ghost lex = cands_view(out@);
    let mut device = device;
    let ghost dv = cands_view(device@);
    out.append(&mut device);
    proof {
        assert(cands_view(out@) =~= lex + dv);
    }
    out
}

/// The candidate given the trusted-fix bonus: the primary language's
/// commonest lexicon candidate (`source_rank` 0), else the first lexicon
/// candidate.
pub open spec fn sticky_spec(cands: Seq<(Seq<char>, Seq<char>, Source, u32)>, primary: Option<Seq<char>>) -> Option<int> {
    if exists|i: int| 0 <= i < cands.len() && is_primary_fix(#[trigger] cands[i], primary) {
        Some(choose|i: int| 0 <= i < cands.len() && is_primary_fix(cands[i], primary) && forall|j: int| 0 <= j < i ==> !is_primary_fix(#[trigger] cands[j], primary))
    } else if exists|i: int| 0 <= i < cands.len() && (#[trigger] cands[i]).2 == Source::Lexicon {
        Some(choose|i: int| 0 <= i < cands.len() && cands[i].2 == Source::Lexicon && forall|j: int| 0 <= j < i ==> (#[trigger] cands[j]).2 != Source::Lexicon)
    } else {
        None
    }
}

/// The primary language's commonest lexicon candidate.
pub open spec fn is_primary_fix(c: (Seq<char>, Seq<char>, Source, u32), primary: Option<Seq<char>>) -> bool {
    c.2 == Source::Lexicon && c.3 == 0 && primary == Some(c.1)
}

/// The index of the candidate that gets the trusted-fix bonus: the first
/// lexicon candidate at position 0 in the `primary` language, else the first
/// lexicon candidate, else none.
pub fn sticky_fix(cands: &[Candidate], primary: Option<&str>) -> (r: Option<usize>)
    ensures
        match r {
            Some(i) => sticky_spec(cands_view(cands@), match primary { Some(p) => Some(p@), None => None }) == Some(i as int),
            None => sticky_spec(cands_view(cands@), match primary { Some(p) => Some(p@), None => None }) is None,
        },
{
    let ghost cv = cands_view(cands@);
    let ghost pv: Option<Seq<char>> = match primary { Some(p) => Some(p@), None => None };
    for i in 0..cands.len()
        invariant
            cv == cands_view(cands@),
            pv == (match primary { Some(p) => Some(p@), None => None::<Seq<char>> }),
            forall|j: int| 0 <= j < i ==> !is_primary_fix(#[trigger] cv[j], pv),
    {
        let c = &cands[i];
        let hit = match primary {
            Some(p) => c.source == Source::Lexicon && c.source_rank == 0 && same_text(c.lang.as_str(), p),
            None => false,
        };
        proof {
            assert(cv[i as int] == cand_view(cands@[i as int]));
        }
        if hit {
            proof {
                assert(is_primary_fix(cv[i as int], pv));
                let k = choose|k: int| 0 <= k < cv.len() && is_primary_fix(cv[k], pv) && forall|j: int| 0 <= j < k ==> !is_primary_fix(#[trigger] cv[j], pv);
                if k < i {
                } else if k > i {
                    assert(!is_primary_fix(cv[i as int], pv));
                }
            }
            return Some(i);
        }
    }
    for i in 0..cands.len()
        invariant
            cv == cands_view(cands@),
            pv == (match primary { Some(p) => Some(p@), None => None::<Seq<char>> }),
            forall|j: int| 0 <= j < cv.len() ==> !is_primary_fix(#[trigger] cv[j], pv),
            forall|j: int| 0 <= j < i ==> (#[trigger] cv[j]).2 != Source::Lexicon,
    {
        proof {
            assert(cv[i as int] == cand_view(cands@[i as int]));
        }
        if cands[i].source == Source::Lexicon {
            proof {
                let k = choose|k: int| 0 <= k < cv.len() && cv[k].2 == Source::Lexicon && forall|j: int| 0 <= j < k ==> (#[trigger] cv[j]).2 != Source::Lexicon;
                if k < i {
                } else if k > i {
                    assert(cv[i as int].2 != Source::Lexicon);
                }
            }
            return Some(i);
        }
    }
    None
}

/// `ws` without `winner`, each word kept once, in order.
pub open spec fn distinct_words(ws: Seq<Seq<char>>, winner: Seq<char>) -> Seq<Seq<char>>
    decreases ws.len(),
{
    if ws.len() == 0 {
        Seq::empty()
    } else {
        let a = distinct_words(ws.drop_last(), winner);
        let w = ws.last();
        if w == winner || a.contains(w) {
            a
        } else {
            a.push(w)
        }
    }
}

/// `distinct_words` of a prefix is a prefix of `distinct_words`.
proof fn lemma_distinct_prefix(ws: Seq<Seq<char>>, winner: Seq<char>, k: int)
    requires
        0 <= k <= ws.len(),
    ensures
        distinct_words(ws.take(k), winner).len() <= distinct_words(ws, winner).len(),
        distinct_words(ws, winner).take(distinct_words(ws.take(k), winner).len() as int) == distinct_words(ws.take(k), winner),
    decreases ws.len() - k,
{
    if k == ws.len() {
        assert(ws.take(k) =~= ws);
        assert(distinct_words(ws, winner).take(distinct_words(ws, winner).len() as int) =~= distinct_words(ws, winner));
    } else {
        lemma_distinct_prefix(ws, winner, k + 1);
        let a = distinct_words(ws.take(k), winner);
        let b = distinct_words(ws.take(k + 1), winner);
        assert(ws.take(k + 1).drop_last() =~= ws.take(k));
        let full = distinct_words(ws, winner);
        if b.len() != a.len() {
            assert(b == a.push(ws[k]));
            assert(full.take(a.len() as int) =~= b.take(a.len() as int));
            assert(b.take(a.len() as int) =~= a);
        }
    }
}

/// The words of `cands` in the order `order` lists them, past the first.
pub open spec fn words_after_first(order: Seq<usize>, cands: Seq<Candidate>) -> Seq<Seq<char>> {
    if order.len() <= 1 {
        Seq::empty()
    } else {
        order.skip(1).map_values(|i: usize| cands[i as int].word@)
    }
}

/// Up to two best alternatives after the winner, as distinct words: `order`
/// lists candidate indices best first; the first (the winner's) is skipped,
/// a word repeated across languages appears once, and the winner itself is
/// never offered.
pub fn distinct_alternatives(order: &[usize], cands: &[Candidate], winner: &str) -> (r: Vec<String>)
    requires
        forall|i: int| 0 <= i < order@.len() ==> order@[i] < cands@.len(),
    ensures
        texts(r@) == distinct_words(words_after_first(order@, cands@), winner@).take(
            if distinct_words(words_after_first(order@, cands@), winner@).len() < 2 {
                distinct_words(words_after_first(order@, cands@), winner@).len() as int
            } else {
                2
            },
        ),
{
    let ghost ws = words_after_first(order@, cands@);
    let mut out: Vec<String> = Vec::new();
    if order.len() <= 1 {
        proof {
            assert(ws =~= Seq::<Seq<char>>::empty());
            assert(texts(out@) =~= Seq::<Seq<char>>::empty());
        }
        return out;
    }
    let mut k: usize = 1;
    proof {
        assert(ws.take(0) =~= Seq::<Seq<char>>::empty());
    }
    while k < order.len() && out.len() < 2
        invariant
            1 <= k <= order@.len(),
            forall|i: int| 0 <= i < order@.len() ==> order@[i] < cands@.len(),
            ws == words_after_first(order@, cands@),
            ws.len() == order@.len() - 1,
            texts(out@) == distinct_words(ws.take(k - 1), winner@),
            out@.len() <= 2,
        decreases order@.len() - k,
    {
        let w = &cands[order[k]].word;
        let ghost before = texts(out@);
        proof {
            assert(ws[k - 1] == w@);
            assert(ws.take(k as int).drop_last() =~= ws.take(k - 1));
            assert(ws.take(k as int).last() == w@);
        }
        let mut keep = !same_text(w.as_str(), winner);
        let mut j: usize = 0;
        while j < out.len()
            invariant
                before == texts(out@),
                j <= out@.len(),
                keep == (w@ != winner@ && forall|t: int| 0 <= t < j ==> before[t] != w@),
            decreases out@.len() - j,
        {
            if same_text(out[j].as_str(), w.as_str()) {
                keep = false;
            }
            proof {
                assert(before[j as int] == out@[j as int]@);
            }
            j = j + 1;
        }
        proof {
            if !keep && w@ != winner@ {
                let t = choose|t: int| 0 <= t < out@.len() && before[t] == w@;
                assert(before.contains(w@));
            }
            if keep {
                assert(!before.contains(w@));
            }
        }
        if keep {
            out.push(w.clone());
            proof {
                assert(texts(out@) =~= before.push(w@));
            }
        }
        k = k + 1;
    }
    proof {
        let full = distinct_words(ws, winner@);
        lemma_distinct_prefix(ws, winner@, k - 1);
        if out@.len() < 2 {
            assert(k == order@.len());
            assert(ws.take(k - 1) =~= ws);
        }
        assert(texts(out@) =~= full.take(if full.len() < 2 { full.len() as int } else { 2 }));
    }
    out
}

/// A correction winner's own detail, for a gate to weigh: the word, the
/// confidence the ranker gave it (carried as given), its edit distance from
/// the typed word, its language, and its bundled rank in that language's pack.
#[derive(Debug, Clone, PartialEq)]
pub struct AvailableCorrection<C> {
    /// The candidate a correction would apply.
    pub winner: String,
    /// The winner's ranked score.
    pub winner_confidence: C,
    /// Levenshtein distance between the typed word and the winner, capped at
    /// the longer one's length.
    pub edit_distance: u32,
    /// The language the winner came from.
    pub winner_lang: String,
    /// The winner's rank in its own language's pack (0 = commonest), if that
    /// pack ranks it.
    pub winner_dict_rank: Option<u32>,
}

/// The index of the first pack tagged `lang`, or `packs.len()` when none is.
pub open spec fn first_pack_of(packs: Seq<LexiconPack>, lang: Seq<char>) -> int
    decreases packs.len(),
{
    if packs.len() == 0 {
        0
    } else {
        let i = first_pack_of(packs.drop_last(), lang);
        if i < packs.len() - 1 {
            i
        } else if packs.last().lang@ == lang {
            packs.len() - 1
        } else {
            packs.len() as int
        }
    }
}

/// The rank the first pack tagged `lang` gives `w`, if there is such a pack
/// and it ranks `w`.
pub open spec fn own_pack_rank(packs: Seq<LexiconPack>, lang: Seq<char>, w: Seq<char>) -> Option<u32> {
    let i = first_pack_of(packs, lang);
    if 0 <= i < packs.len() && packs[i].rank@.contains_key(w) {
        Some(packs[i].rank@[w])
    } else {
        None
    }
}

/// The winner's detail: its edit distance from `typed` and its rank in the
/// first pack of its own language (`None` when no active pack is tagged
/// `winner_lang`, e.g. a device-only word, or that pack does not rank it).
pub fn available_correction<C>(
    packs: &[LexiconPack],
    typed: &str,
    winner: &str,
    winner_lang: String,
    winner_confidence: C,
) -> (r: AvailableCorrection<C>)
    requires
        packs_wf(packs@),
        typed@.len() < usize::MAX,
        winner@.len() < usize::MAX,
    ensures
        r.winner@ == winner@,
        r.winner_confidence == winner_confidence,
        r.edit_distance == levenshtein(typed@, winner@) as u32,
        r.winner_lang@ == winner_lang@,
        r.winner_dict_rank == own_pack_rank(packs@, winner_lang@, winner@),
{
    let mut found: usize = packs.len();
    let mut i: usize = 0;
    proof {
        assert(packs@.take(0) =~= Seq::<LexiconPack>::empty());
    }
    while i < packs.len() && found == packs.len()
        invariant
            packs_wf(packs@),
            i <= packs@.len(),
            first_pack_of(packs@.take(i as int), winner_lang@) == i,
            found == packs@.len() || (found == i && i < packs@.len() && packs@[i as int].lang@ == winner_lang@),
        decreases packs@.len() - i, found,
    {
        proof {
            assert(packs@.take(i + 1).drop_last() =~= packs@.take(i as int));
            assert(packs@.take(i + 1).last() == packs@[i as int]);
        }
        if same_text(packs[i].lang.as_str(), winner_lang.as_str()) {
            found = i;
        } else {
            i = i + 1;
        }
    }
    proof {
        lemma_first_pack_prefix(packs@, winner_lang@, i as int);
    }
    let winner_dict_rank = if found < packs.len() {
        proof {
            assert(packs@[found as int].rank.wf());
        }
        match packs[found].rank.get(winner) {
            Some(r) => Some(*r),
            None => None,
        }
    } else {
        None
    };
    AvailableCorrection {
        winner: winner.to_string(),
        winner_confidence,
        edit_distance: edit_distance(typed, winner),
        winner_lang,
        winner_dict_rank,
    }
}

/// Once the first `j` packs settle the answer (a match at `j`, or none at
/// all), the rest of the list does not change it.
proof fn lemma_first_pack_prefix(packs: Seq<LexiconPack>, lang: Seq<char>, j: int)
    requires
        0 <= j <= packs.len(),
        first_pack_of(packs.take(j), lang) == j,
        j < packs.len() ==> packs[j].lang@ == lang,
    ensures
        first_pack_of(packs, lang) == j,
    decreases packs.len() - j,
{
    if j == packs.len() {
        assert(packs.take(j) =~= packs);
    } else {
        let t = packs.take(j + 1);
        assert(t.drop_last() =~= packs.take(j));
        assert(t.last() == packs[j]);
        lemma_first_pack_stays(packs, lang, j + 1);
    }
}

/// A pack found among the first `k` stays the first of its language.
proof fn lemma_first_pack_stays(packs: Seq<LexiconPack>, lang: Seq<char>, k: int)
    requires
        0 <= k <= packs.len(),
        first_pack_of(packs.take(k), lang) < k,
    ensures
        first_pack_of(packs, lang) == first_pack_of(packs.take(k), lang),
    decreases packs.len() - k,
{
    if k == packs.len() {
        assert(packs.take(k) =~= packs);
    } else {
        let t = packs.take(k + 1);
        assert(t.drop_last() =~= packs.take(k));
        lemma_first_pack_stays(packs, lang, k + 1);
    }
}

} // verus!
