//! The last step of the suggestion strip: one entry per word up to case,
//! capped, with the typed token's accent variant guaranteed a slot. Each
//! entry is a word with whatever the ranker attached to it.
use crate::propercase::{lowercase_text, text_to_lowercase};
use crate::text::same_text;
use vstd::prelude::*;

verus! {

/// Some entry of `s` spells `w` up to case.
pub open spec fn listed_up_to_case<T>(s: Seq<(String, T)>, w: Seq<char>) -> bool {
    exists|i: int| 0 <= i < s.len() && lowercase_text((#[trigger] s[i]).0@) == lowercase_text(w)
}

/// The entries of `s` whose word does not occur earlier up to case, in order.
pub open spec fn first_by_case<T>(s: Seq<(String, T)>) -> Seq<(String, T)>
    decreases s.len(),
{
    if s.len() == 0 {
        s
    } else {
        let kept = first_by_case(s.drop_last());
        if listed_up_to_case(s.drop_last(), s.last().0@) {
            kept
        } else {
            kept.push(s.last())
        }
    }
}

/// At most `cap` entries of `s`, each word once up to case (its first
/// occurrence kept), in order.
pub open spec fn dedup_capped<T>(s: Seq<(String, T)>, cap: nat) -> Seq<(String, T)> {
    let d = first_by_case(s);
    if cap < d.len() {
        d.take(cap as int)
    } else {
        d
    }
}

/// The index of the first variant whose word `ranked` does not list up to
/// case, or `variants.len()` when every one is listed.
pub open spec fn first_unlisted<T>(ranked: Seq<(String, T)>, variants: Seq<(String, T)>) -> int
    decreases variants.len(),
{
    if variants.len() == 0 {
        0
    } else {
        let j = first_unlisted(ranked, variants.drop_last());
        if j < variants.len() - 1 {
            j
        } else if !listed_up_to_case(ranked, variants.last().0@) {
            variants.len() - 1
        } else {
            variants.len() as int
        }
    }
}

/// The strip for `prefix`: with a non-empty prefix, the first variant not
/// already shown goes in second place (first when `ranked` is empty); then
/// one entry per word up to case, at most `cap`.
pub open spec fn with_variant<T>(
    prefix: Seq<char>,
    ranked: Seq<(String, T)>,
    variants: Seq<(String, T)>,
    cap: nat,
) -> Seq<(String, T)> {
    let j = first_unlisted(ranked, variants);
    if prefix.len() == 0 || j == variants.len() {
        dedup_capped(ranked, cap)
    } else {
        let at = if ranked.len() < 1 {
            ranked.len() as int
        } else {
            1int
        };
        dedup_capped(ranked.insert(at, variants[j]), cap)
    }
}

/// `first_unlisted` is an index of `variants` or its length.
proof fn lemma_first_unlisted<T>(ranked: Seq<(String, T)>, variants: Seq<(String, T)>)
    ensures
        0 <= first_unlisted(ranked, variants) <= variants.len(),
        first_unlisted(ranked, variants) < variants.len() ==> !listed_up_to_case(
            ranked,
            variants[first_unlisted(ranked, variants)].0@,
        ),
    decreases variants.len(),
{
    if variants.len() > 0 {
        lemma_first_unlisted(ranked, variants.drop_last());
    }
}

/// The lowercase forms of `s`'s words.
fn lowered<T>(s: &Vec<(String, T)>) -> (r: Vec<String>)
    ensures
        r@.len() == s@.len(),
        forall|i: int| 0 <= i < s@.len() ==> (#[trigger] r@[i])@ == lowercase_text(s@[i].0@),
{
    let mut out: Vec<String> = Vec::new();
    for i in 0..s.len()
        invariant
            out@.len() == i,
            forall|j: int| 0 <= j < i ==> (#[trigger] out@[j])@ == lowercase_text(s@[j].0@),
    {
        out.push(text_to_lowercase(s[i].0.as_str()));
    }
    out
}

/// `true` when `seen` holds `w`.
fn holds(seen: &Vec<String>, w: &str) -> (r: bool)
    ensures
        r == exists|i: int| 0 <= i < seen@.len() && (#[trigger] seen@[i])@ == w@,
{
    for i in 0..seen.len()
        invariant
            forall|j: int| 0 <= j < i ==> (#[trigger] seen@[j])@ != w@,
    {
        if same_text(seen[i].as_str(), w) {
            return true;
        }
    }
    false
}

/// Keep the first entry of each word up to case, in order, and at most
/// `cap` of them.
pub fn dedup_cap<T>(words: Vec<(String, T)>, cap: usize) -> (r: Vec<(String, T)>)
    ensures
        r@ == dedup_capped(words@, cap as nat),
{
    let ghost all = words@;
    let mut rest = words;
    let mut kept: Vec<(String, T)> = Vec::new();
    let mut seen: Vec<String> = Vec::new();
    let n = rest.len();
    proof {
        assert(all.take(0) =~= Seq::<(String, T)>::empty());
        assert(rest@ =~= all.skip(0));
    }
    for k in 0..n
        invariant
            n == all.len(),
            rest@ == all.skip(k as int),
            kept@ == first_by_case(all.take(k as int)),
            seen@.len() == kept@.len(),
            forall|i: int| 0 <= i < kept@.len() ==> (#[trigger] seen@[i])@ == lowercase_text(kept@[i].0@),
            forall|w: Seq<char>|
                #![trigger listed_up_to_case(all.take(k as int), w)]
                #![trigger listed_up_to_case(kept@, w)]
                listed_up_to_case(all.take(k as int), w) <==> listed_up_to_case(kept@, w),
    {
        let x = rest.remove(0);
        let ghost t = all.take(k as int);
        proof {
            assert(x == all[k as int]);
            assert(rest@ =~= all.skip(k + 1));
            assert(all.take(k + 1).drop_last() =~= t);
            assert(all.take(k + 1).last() == x);
        }
        let lw = text_to_lowercase(x.0.as_str());
        let dup = holds(&seen, lw.as_str());
        proof {
            if dup {
                let i = choose|i: int| 0 <= i < seen@.len() && (#[trigger] seen@[i])@ == lw@;
                assert(lowercase_text(kept@[i].0@) == lowercase_text(x.0@));
                assert(listed_up_to_case(kept@, x.0@));
            } else {
                if listed_up_to_case(kept@, x.0@) {
                    let i = choose|i: int| 0 <= i < kept@.len() && lowercase_text((#[trigger] kept@[i]).0@)
                        == lowercase_text(x.0@);
                    assert(seen@[i]@ == lw@);
                }
            }
        }
        if !dup {
            let ghost before = kept@;
            assert(forall|w: Seq<char>| #[trigger] listed_up_to_case(t, w) ==> listed_up_to_case(before, w));
            kept.push(x);
            seen.push(lw);
            proof {
                assert forall|w: Seq<char>| #[trigger]
                    listed_up_to_case(all.take(k + 1), w) <==> listed_up_to_case(kept@, w) by {
                    let s = all.take(k + 1);
                    if listed_up_to_case(s, w) {
                        let i = choose|i: int| 0 <= i < s.len() && lowercase_text((#[trigger] s[i]).0@) == lowercase_text(w);
                        if i < k {
                            assert(t[i] == s[i]);
                            assert(listed_up_to_case(t, w));
                            let j = choose|j: int| 0 <= j < before.len() && lowercase_text((#[trigger] before[j]).0@) == lowercase_text(w);
                            assert(kept@[j] == before[j]);
                        } else {
                            assert(kept@[before.len() as int] == x);
                        }
                    }
                    if listed_up_to_case(kept@, w) {
                        let j = choose|j: int| 0 <= j < kept@.len() && lowercase_text((#[trigger] kept@[j]).0@) == lowercase_text(w);
                        if j < before.len() {
                            assert(kept@[j] == before[j]);
                            assert(listed_up_to_case(before, w));
                            let i = choose|i: int| 0 <= i < t.len() && lowercase_text((#[trigger] t[i]).0@) == lowercase_text(w);
                            assert(s[i] == t[i]);
                        } else {
                            assert(s[k as int] == x);
                        }
                    }
                }
            }
        } else {
            proof {
                assert forall|w: Seq<char>| #[trigger]
                    listed_up_to_case(all.take(k + 1), w) <==> listed_up_to_case(kept@, w) by {
                    let s = all.take(k + 1);
                    if listed_up_to_case(s, w) {
                        let i = choose|i: int| 0 <= i < s.len() && lowercase_text((#[trigger] s[i]).0@) == lowercase_text(w);
                        if i < k {
                            assert(t[i] == s[i]);
                            assert(listed_up_to_case(t, w));
                        } else {
                            assert(s[i] == x);
                            let j = choose|j: int| 0 <= j < kept@.len() && lowercase_text((#[trigger] kept@[j]).0@)
                                == lowercase_text(x.0@);
                            assert(lowercase_text(kept@[j].0@) == lowercase_text(w));
                        }
                    }
                    if listed_up_to_case(kept@, w) {
                        assert(listed_up_to_case(t, w));
                        let i = choose|i: int| 0 <= i < t.len() && lowercase_text((#[trigger] t[i]).0@) == lowercase_text(w);
                        assert(s[i] == t[i]);
                    }
                }
            }
        }
    }
    proof {
        assert(all.take(n as int) =~= all);
    }
    let ghost d = kept@;
    if cap < kept.len() {
        kept.truncate(cap);
    }
    proof {
        if cap < d.len() {
            assert(kept@ =~= d.take(cap as int));
        }
    }
    kept
}

/// The strip for `prefix` from the ranked entries and the typed token's
/// accent variants (commonest first): with a non-empty prefix the first
/// variant the ranked entries do not already show up to case takes the
/// second slot (the first when nothing is ranked), so a commoner plain twin
/// cannot crowd it out; then each word is kept once up to case, at most
/// `cap` entries.
pub fn guarantee_fold_variant<T>(
    prefix: &str,
    ranked: Vec<(String, T)>,
    variants: Vec<(String, T)>,
    cap: usize,
) -> (r: Vec<(String, T)>)
    ensures
        r@ == with_variant(prefix@, ranked@, variants@, cap as nat),
{
    proof {
        lemma_first_unlisted(ranked@, variants@);
    }
    if prefix.is_empty() {
        return dedup_cap(ranked, cap);
    }
    let shown = lowered(&ranked);
    let ghost vs = variants@;
    let ghost rs = ranked@;
    let mut found: usize = variants.len();
    let mut j: usize = 0;
    proof {
        assert(vs.take(0) =~= Seq::<(String, T)>::empty());
    }
    while j < variants.len() && found == variants.len()
        invariant
            vs == variants@,
            rs == ranked@,
            shown@.len() == rs.len(),
            forall|i: int| 0 <= i < rs.len() ==> (#[trigger] shown@[i])@ == lowercase_text(rs[i].0@),
            j <= vs.len(),
            first_unlisted(rs, vs.take(j as int)) == j,
            found == vs.len() || (found == j && j < vs.len() && !listed_up_to_case(rs, vs[j as int].0@)),
        decreases vs.len() - j, found,
    {
        let lw = text_to_lowercase(variants[j].0.as_str());
        let listed = holds(&shown, lw.as_str());
        proof {
            assert(vs.take(j + 1).drop_last() =~= vs.take(j as int));
            assert(vs.take(j + 1).last() == vs[j as int]);
            if listed {
                let i = choose|i: int| 0 <= i < shown@.len() && (#[trigger] shown@[i])@ == lw@;
                assert(lowercase_text(rs[i].0@) == lowercase_text(vs[j as int].0@));
                assert(listed_up_to_case(rs, vs[j as int].0@));
            } else {
                if listed_up_to_case(rs, vs[j as int].0@) {
                    let i = choose|i: int| 0 <= i < rs.len() && lowercase_text((#[trigger] rs[i]).0@)
                        == lowercase_text(vs[j as int].0@);
                    assert(shown@[i]@ == lw@);
                }
            }
        }
        if listed {
            j = j + 1;
        } else {
            found = j;
        }
    }
    proof {
        lemma_first_unlisted_prefix(rs, vs, j as int);
    }
    if found == variants.len() {
        return dedup_cap(ranked, cap);
    }
    let mut variants = variants;
    let v = variants.remove(found);
    let mut out = ranked;
    let at: usize = if out.len() < 1 {
        out.len()
    } else {
        1
    };
    out.insert(at, v);
    dedup_cap(out, cap)
}

/// Once a variant in the first `j` is found unlisted, or all `j` are listed,
/// extending the prefix does not move the answer.
proof fn lemma_first_unlisted_prefix<T>(ranked: Seq<(String, T)>, variants: Seq<(String, T)>, j: int)
    requires
        0 <= j <= variants.len(),
        first_unlisted(ranked, variants.take(j)) == j,
        j < variants.len() ==> !listed_up_to_case(ranked, variants[j].0@),
    ensures
        first_unlisted(ranked, variants) == j,
    decreases variants.len() - j,
{
    if j == variants.len() {
        assert(variants.take(j) =~= variants);
    } else {
        let t = variants.take(j + 1);
        assert(t.drop_last() =~= variants.take(j));
        assert(t.last() == variants[j]);
        assert(first_unlisted(ranked, t) == j);
        lemma_first_unlisted_stays(ranked, variants, j + 1);
    }
}

/// An index found within the first `k` variants stays the answer.
proof fn lemma_first_unlisted_stays<T>(ranked: Seq<(String, T)>, variants: Seq<(String, T)>, k: int)
    requires
        0 <= k <= variants.len(),
        first_unlisted(ranked, variants.take(k)) < k,
    ensures
        first_unlisted(ranked, variants) == first_unlisted(ranked, variants.take(k)),
    decreases variants.len() - k,
{
    if k == variants.len() {
        assert(variants.take(k) =~= variants);
    } else {
        let t = variants.take(k + 1);
        assert(t.drop_last() =~= variants.take(k));
        lemma_first_unlisted_stays(ranked, variants, k + 1);
    }
}

/// `first_by_case` keeps at most the entries it is given.
proof fn lemma_first_by_case_len<T>(s: Seq<(String, T)>)
    ensures
        first_by_case(s).len() <= s.len(),
    decreases s.len(),
{
    if s.len() > 0 {
        lemma_first_by_case_len(s.drop_last());
    }
}

/// What `first_by_case` keeps of a prefix of `s` begins what it keeps of `s`.
proof fn lemma_first_by_case_prefix<T>(s: Seq<(String, T)>, m: int)
    requires
        0 <= m <= s.len(),
    ensures
        first_by_case(s.take(m)).len() <= first_by_case(s).len(),
        forall|i: int| 0 <= i < first_by_case(s.take(m)).len() ==> #[trigger] first_by_case(s)[i] == first_by_case(s.take(m))[i],
    decreases s.len() - m,
{
    if m == s.len() {
        assert(s.take(m) =~= s);
    } else {
        lemma_first_by_case_prefix(s, m + 1);
        assert(s.take(m + 1).drop_last() =~= s.take(m));
    }
}

/// A non-empty prefix's first accent variant that the ranked entries do not
/// already show always makes the strip, in one of its first two places, when
/// the strip has room for two: a commoner plain twin cannot crowd it out.
pub proof fn variant_is_never_crowded_out<T>(
    prefix: Seq<char>,
    ranked: Seq<(String, T)>,
    variants: Seq<(String, T)>,
    cap: nat,
)
    requires
        prefix.len() > 0,
        cap >= 2,
        first_unlisted(ranked, variants) < variants.len(),
    ensures
        exists|i: int|
            0 <= i < 2 && i < with_variant(prefix, ranked, variants, cap).len() && #[trigger] with_variant(
                prefix,
                ranked,
                variants,
                cap,
            )[i] == variants[first_unlisted(ranked, variants)],
{
    lemma_first_unlisted(ranked, variants);
    let j = first_unlisted(ranked, variants);
    let v = variants[j];
    let at = if ranked.len() < 1 {
        ranked.len() as int
    } else {
        1int
    };
    let s = ranked.insert(at, v);
    assert(s.take(at + 1).drop_last() =~= s.take(at));
    assert(s.take(at + 1).last() == v);
    assert(!listed_up_to_case(s.take(at), v.0@)) by {
        if listed_up_to_case(s.take(at), v.0@) {
            let i = choose|i: int| 0 <= i < s.take(at).len() && lowercase_text((#[trigger] s.take(at)[i]).0@)
                == lowercase_text(v.0@);
            assert(s.take(at)[i] == ranked[i]);
        }
    }
    let before = first_by_case(s.take(at));
    lemma_first_by_case_len(s.take(at));
    assert(first_by_case(s.take(at + 1)) == before.push(v));
    lemma_first_by_case_prefix(s, at + 1);
    let l = before.len() as int;
    assert(first_by_case(s)[l] == first_by_case(s.take(at + 1))[l]);
    let d = first_by_case(s);
    assert(with_variant(prefix, ranked, variants, cap) == dedup_capped(s, cap));
    if cap < d.len() {
        assert(d.take(cap as int)[l] == d[l]);
    }
    assert(with_variant(prefix, ranked, variants, cap)[l] == v);
}

/// `s[j]` is the first entry of `s` spelling its word, up to case.
pub open spec fn first_spelling<T>(s: Seq<(String, T)>, j: int) -> bool {
    0 <= j < s.len() && !listed_up_to_case(s.take(j), s[j].0@)
}

/// `e` is the entry at `j` of `s`, the first spelling of its word.
pub open spec fn spelled_first_at<T>(s: Seq<(String, T)>, j: int, e: (String, T)) -> bool {
    first_spelling(s, j) && s[j] == e
}

/// The `i`-th kept entry is the first spelling of its word at some position.
pub open spec fn kept_from_first_spelling<T>(s: Seq<(String, T)>, i: int) -> bool {
    exists|j: int| #[trigger] spelled_first_at(s, j, first_by_case(s)[i])
}

/// The `i`-th and `k`-th kept entries are first spellings at increasing
/// positions of `s`.
pub open spec fn kept_in_input_order<T>(s: Seq<(String, T)>, i: int, k: int) -> bool {
    exists|a: int, b: int|
        a < b && #[trigger] spelled_first_at(s, a, first_by_case(s)[i]) && #[trigger] spelled_first_at(
            s,
            b,
            first_by_case(s)[k],
        )
}

/// Positions below the last agree on being first spellings with the prefix.
proof fn lemma_first_spelling_prefix<T>(s: Seq<(String, T)>)
    requires
        s.len() > 0,
    ensures
        forall|j: int| 0 <= j < s.len() - 1 ==> (#[trigger] first_spelling(s, j) <==> first_spelling(s.drop_last(), j)),
        forall|j: int, e: (String, T)| 0 <= j < s.len() - 1 ==> (#[trigger] spelled_first_at(s, j, e) <==> spelled_first_at(s.drop_last(), j, e)),
        s.take(s.len() - 1) == s.drop_last(),
{
    let p = s.drop_last();
    assert forall|j: int| 0 <= j < s.len() - 1 implies (#[trigger] first_spelling(s, j) <==> first_spelling(p, j)) by {
        assert(s.take(j) =~= p.take(j));
        assert(s[j] == p[j]);
    }
    assert forall|j: int, e: (String, T)| 0 <= j < s.len() - 1 implies (#[trigger] spelled_first_at(s, j, e) <==> spelled_first_at(p, j, e)) by {
        assert(s.take(j) =~= p.take(j));
        assert(s[j] == p[j]);
    }
    assert(s.take(s.len() - 1) =~= p);
}

/// What is kept: each kept entry is a first spelling, every first spelling is
/// kept, and no two kept entries are the same word up to case.
proof fn lemma_first_by_case_members<T>(s: Seq<(String, T)>)
    ensures
        forall|i: int| 0 <= i < first_by_case(s).len() ==> #[trigger] kept_from_first_spelling(s, i),
        forall|j: int| #[trigger] first_spelling(s, j) ==> first_by_case(s).contains(s[j]),
        forall|i: int, k: int|
            0 <= i < k < first_by_case(s).len() ==> lowercase_text((#[trigger] first_by_case(s)[i]).0@)
                != lowercase_text((#[trigger] first_by_case(s)[k]).0@),
    decreases s.len(),
{
    if s.len() == 0 {
        return;
    }
    let d = first_by_case(s);
    let p = s.drop_last();
    let x = s.last();
    let n = s.len() - 1;
    lemma_first_by_case_members(p);
    lemma_first_spelling_prefix(s);
    let dp = first_by_case(p);
    assert(s[n] == x);
    assert forall|i: int| 0 <= i < dp.len() implies listed_up_to_case(p, (#[trigger] dp[i]).0@) by {
        assert(kept_from_first_spelling(p, i));
                let j = choose|j: int| #[trigger] spelled_first_at(p, j, dp[i]);
        assert(lowercase_text(p[j].0@) == lowercase_text(dp[i].0@));
    }
    if listed_up_to_case(p, x.0@) {
        assert(d == dp);
        assert(!first_spelling(s, n));
        assert forall|i: int| 0 <= i < d.len() implies #[trigger] kept_from_first_spelling(s, i) by {
            assert(kept_from_first_spelling(p, i));
                let j = choose|j: int| #[trigger] spelled_first_at(p, j, dp[i]);
            assert(spelled_first_at(s, j, d[i]));
        }
        assert forall|j: int| #[trigger] first_spelling(s, j) implies d.contains(s[j]) by {
            assert(first_spelling(p, j));
        }
    } else {
        assert(d == dp.push(x));
        assert(first_spelling(s, n));
        assert forall|i: int| 0 <= i < d.len() implies #[trigger] kept_from_first_spelling(s, i) by {
            if i < dp.len() {
                assert(d[i] == dp[i]);
                assert(kept_from_first_spelling(p, i));
                let j = choose|j: int| #[trigger] spelled_first_at(p, j, dp[i]);
                assert(spelled_first_at(s, j, d[i]));
            } else {
                assert(spelled_first_at(s, n, d[i]));
            }
        }
        assert forall|j: int| #[trigger] first_spelling(s, j) implies d.contains(s[j]) by {
            if j < n {
                assert(first_spelling(p, j));
                assert(dp.contains(p[j]));
                let i = choose|i: int| 0 <= i < dp.len() && dp[i] == p[j];
                assert(d[i] == dp[i]);
            } else {
                assert(d[dp.len() as int] == s[j]);
            }
        }
        assert forall|i: int, k: int| 0 <= i < k < d.len() implies lowercase_text((#[trigger] d[i]).0@)
            != lowercase_text((#[trigger] d[k]).0@) by {
            assert(d[i] == dp[i]);
            if k < dp.len() {
                assert(d[k] == dp[k]);
            } else {
                assert(d[k] == x);
                assert(listed_up_to_case(p, dp[i].0@));
                let j = choose|j: int| 0 <= j < p.len() && lowercase_text((#[trigger] p[j]).0@) == lowercase_text(
                    dp[i].0@,
                );
                if lowercase_text(dp[i].0@) == lowercase_text(x.0@) {
                    assert(lowercase_text(p[j].0@) == lowercase_text(x.0@));
                }
            }
        }
    }
}

/// The kept entries come in the order of their first spellings in `s`.
proof fn lemma_first_by_case_order<T>(s: Seq<(String, T)>)
    ensures
        forall|i: int, k: int| 0 <= i < k < first_by_case(s).len() ==> #[trigger] kept_in_input_order(s, i, k),
    decreases s.len(),
{
    if s.len() == 0 {
        return;
    }
    let d = first_by_case(s);
    let p = s.drop_last();
    let x = s.last();
    let n = s.len() - 1;
    lemma_first_by_case_order(p);
    lemma_first_by_case_members(p);
    lemma_first_spelling_prefix(s);
    let dp = first_by_case(p);
    assert(s[n] == x);
    if listed_up_to_case(p, x.0@) {
        assert(d == dp);
        assert forall|i: int, k: int| 0 <= i < k < d.len() implies #[trigger] kept_in_input_order(s, i, k) by {
            assert(kept_in_input_order(p, i, k));
            let (a, b) = choose|a: int, b: int|
                a < b && #[trigger] spelled_first_at(p, a, dp[i]) && #[trigger] spelled_first_at(p, b, dp[k]);
            assert(spelled_first_at(s, a, d[i]) && spelled_first_at(s, b, d[k]));
        }
    } else {
        assert(d == dp.push(x));
        assert(first_spelling(s, n));
        assert forall|i: int, k: int| 0 <= i < k < d.len() implies #[trigger] kept_in_input_order(s, i, k) by {
            assert(d[i] == dp[i]);
            if k < dp.len() {
                assert(d[k] == dp[k]);
                assert(kept_in_input_order(p, i, k));
                let (a, b) = choose|a: int, b: int|
                    a < b && #[trigger] spelled_first_at(p, a, dp[i]) && #[trigger] spelled_first_at(p, b, dp[k]);
                assert(spelled_first_at(s, a, d[i]) && spelled_first_at(s, b, d[k]));
            } else {
                assert(kept_from_first_spelling(p, i));
                let a = choose|a: int| #[trigger] spelled_first_at(p, a, dp[i]);
                assert(spelled_first_at(s, a, d[i]));
                assert(spelled_first_at(s, n, d[k]));
            }
        }
    }
}

/// Keeping one entry per word up to case keeps exactly the first entry of
/// each word, in input order: every kept entry is the first spelling of its
/// word, every first spelling is kept, no two kept entries are the same word
/// up to case, and kept entries come in the order of their positions in `s`.
pub proof fn dedup_keeps_first_spellings<T>(s: Seq<(String, T)>)
    ensures
        forall|i: int| 0 <= i < first_by_case(s).len() ==> #[trigger] kept_from_first_spelling(s, i),
        forall|j: int| #[trigger] first_spelling(s, j) ==> first_by_case(s).contains(s[j]),
        forall|i: int, k: int|
            0 <= i < k < first_by_case(s).len() ==> lowercase_text((#[trigger] first_by_case(s)[i]).0@)
                != lowercase_text((#[trigger] first_by_case(s)[k]).0@),
        forall|i: int, k: int| 0 <= i < k < first_by_case(s).len() ==> #[trigger] kept_in_input_order(s, i, k),
{
    lemma_first_by_case_members(s);
    lemma_first_by_case_order(s);
}

} // verus!
