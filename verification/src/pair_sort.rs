//! Sorting `(key, value)` text pairs by key, then value, in `str` order.
use crate::text::{
    compare_text, lemma_seq_lt_asymmetric, lemma_seq_lt_irreflexive, lemma_seq_lt_total,
    lemma_seq_lt_transitive, seq_lt, Order,
};
use vstd::prelude::*;

verus! {

/// `a` sorts strictly before `b`: by key, then by value.
pub open spec fn pair_lt(a: (Seq<char>, Seq<char>), b: (Seq<char>, Seq<char>)) -> bool {
    seq_lt(a.0, b.0) || (a.0 == b.0 && seq_lt(a.1, b.1))
}

/// Pairs are ordered by key, and by value between equal keys.
pub proof fn pair_order_is_key_then_value(a: (Seq<char>, Seq<char>), b: (Seq<char>, Seq<char>))
    ensures
        a.0 != b.0 ==> (pair_lt(a, b) <==> seq_lt(a.0, b.0)),
        a.0 == b.0 ==> (pair_lt(a, b) <==> seq_lt(a.1, b.1)),
{
    crate::text::lemma_seq_lt_irreflexive(a.0);
}

/// A pair of strings as plain values.
pub open spec fn pair_view(p: (String, String)) -> (Seq<char>, Seq<char>) {
    (p.0@, p.1@)
}

/// Pairs in non-decreasing order.
pub open spec fn pairs_sorted(s: Seq<(String, String)>) -> bool {
    forall|i: int, j: int| 0 <= i < j < s.len() ==> !pair_lt(pair_view(#[trigger] s[j]), pair_view(#[trigger] s[i]))
}

/// Pairs in non-increasing order.
spec fn pairs_sorted_down(s: Seq<(String, String)>) -> bool {
    forall|i: int, j: int| 0 <= i < j < s.len() ==> !pair_lt(pair_view(#[trigger] s[i]), pair_view(#[trigger] s[j]))
}

/// The pair order is a strict total order.
proof fn lemma_pair_order(a: (Seq<char>, Seq<char>), b: (Seq<char>, Seq<char>), c: (Seq<char>, Seq<char>))
    ensures
        !pair_lt(a, a),
        pair_lt(a, b) ==> !pair_lt(b, a),
        pair_lt(a, b) && pair_lt(b, c) ==> pair_lt(a, c),
        a == b || pair_lt(a, b) || pair_lt(b, a),
        !pair_lt(b, a) && !pair_lt(c, b) ==> !pair_lt(c, a),
{
    lemma_seq_lt_irreflexive(a.0);
    lemma_seq_lt_irreflexive(a.1);
    lemma_seq_lt_asymmetric(a.0, b.0);
    lemma_seq_lt_asymmetric(a.1, b.1);
    lemma_seq_lt_total(a.0, b.0);
    lemma_seq_lt_total(a.1, b.1);
    lemma_seq_lt_total(b.0, c.0);
    lemma_seq_lt_total(b.1, c.1);
    lemma_seq_lt_total(a.0, c.0);
    lemma_seq_lt_total(a.1, c.1);
    if seq_lt(a.0, b.0) && seq_lt(b.0, c.0) {
        lemma_seq_lt_transitive(a.0, b.0, c.0);
    }
    if seq_lt(a.1, b.1) && seq_lt(b.1, c.1) {
        lemma_seq_lt_transitive(a.1, b.1, c.1);
    }
    if seq_lt(b.0, a.0) && seq_lt(c.0, b.0) {
        lemma_seq_lt_transitive(c.0, b.0, a.0);
    }
    if seq_lt(b.1, a.1) && seq_lt(c.1, b.1) {
        lemma_seq_lt_transitive(c.1, b.1, a.1);
    }
    lemma_seq_lt_asymmetric(c.0, a.0);
    lemma_seq_lt_asymmetric(c.1, a.1);
    lemma_seq_lt_asymmetric(b.0, c.0);
    lemma_seq_lt_asymmetric(a.0, c.0);
    if a.0 == b.0 && b.0 == c.0 {
    }
    if a.0 == b.0 && a.1 == b.1 {
        assert(a == b);
    }
}

/// `pair_lt` on two stored pairs.
fn pair_less(a: &(String, String), b: &(String, String)) -> (r: bool)
    ensures
        r == pair_lt(pair_view(*a), pair_view(*b)),
{
    match compare_text(a.0.as_str(), b.0.as_str()) {
        Order::Less => true,
        Order::Greater => {
            proof {
                lemma_seq_lt_asymmetric(b.0@, a.0@);
                lemma_seq_lt_irreflexive(a.0@);
            }
            false
        },
        Order::Equal => {
            proof {
                lemma_seq_lt_irreflexive(a.0@);
            }
            match compare_text(a.1.as_str(), b.1.as_str()) {
                Order::Less => true,
                _ => {
                    proof {
                        lemma_seq_lt_irreflexive(a.1@);
                        lemma_seq_lt_asymmetric(b.1@, a.1@);
                    }
                    false
                },
            }
        },
    }
}

/// Merge two sorted runs into one sorted run holding both.
fn merge_pairs(a: Vec<(String, String)>, b: Vec<(String, String)>) -> (r: Vec<(String, String)>)
    requires
        pairs_sorted(a@),
        pairs_sorted(b@),
    ensures
        pairs_sorted(r@),
        r@.to_multiset() == a@.to_multiset().add(b@.to_multiset()),
{
    broadcast use vstd::seq_lib::group_to_multiset_ensures;

    let mut a = a;
    let mut b = b;
    let ghost total = a@.to_multiset().add(b@.to_multiset());
    let mut down: Vec<(String, String)> = Vec::new();
    while a.len() > 0 || b.len() > 0
        invariant
            pairs_sorted(a@),
            pairs_sorted(b@),
            pairs_sorted_down(down@),
            forall|i: int, k: int|
                0 <= i < down@.len() && 0 <= k < a@.len() ==> !pair_lt(
                    pair_view(#[trigger] down@[i]),
                    pair_view(#[trigger] a@[k]),
                ),
            forall|i: int, k: int|
                0 <= i < down@.len() && 0 <= k < b@.len() ==> !pair_lt(
                    pair_view(#[trigger] down@[i]),
                    pair_view(#[trigger] b@[k]),
                ),
            a@.to_multiset().add(b@.to_multiset()).add(down@.to_multiset()) == total,
        decreases a@.len() + b@.len(),
    {
        let take_a = if a.len() == 0 {
            false
        } else if b.len() == 0 {
            true
        } else {
            pair_less(&b[b.len() - 1], &a[a.len() - 1])
        };
        let ghost a0 = a@;
        let ghost b0 = b@;
        let ghost d0 = down@;
        let x = if take_a {
            match a.pop() {
                Some(x) => x,
                None => { return down; },
            }
        } else {
            match b.pop() {
                Some(x) => x,
                None => { return down; },
            }
        };
        proof {
            if take_a {
                assert(x == a0.last());
                assert(a0 =~= a@.push(x));
                assert forall|k: int| 0 <= k < a@.len() implies !pair_lt(pair_view(x), pair_view(#[trigger] a@[k])) by {
                    assert(a@[k] == a0[k]);
                    lemma_pair_order(pair_view(a0[k]), pair_view(a0[k]), pair_view(a0[k]));
                    assert(!pair_lt(pair_view(a0[a0.len() - 1]), pair_view(a0[k])));
                }
                assert forall|k: int| 0 <= k < b@.len() implies !pair_lt(pair_view(x), pair_view(#[trigger] b@[k])) by {
                    lemma_pair_order(pair_view(b0[k]), pair_view(b0[k]), pair_view(b0[k]));
                    assert(!pair_lt(pair_view(b0[b0.len() - 1]), pair_view(b0[k])));
                    lemma_pair_order(pair_view(b0[b0.len() - 1]), pair_view(x), pair_view(x));
                    lemma_pair_order(pair_view(b0[k]), pair_view(b0[b0.len() - 1]), pair_view(x));
                }
            } else {
                assert(x == b0.last());
                assert(b0 =~= b@.push(x));
                assert forall|k: int| 0 <= k < b@.len() implies !pair_lt(pair_view(x), pair_view(#[trigger] b@[k])) by {
                    assert(b@[k] == b0[k]);
                    lemma_pair_order(pair_view(b0[k]), pair_view(b0[k]), pair_view(b0[k]));
                    assert(!pair_lt(pair_view(b0[b0.len() - 1]), pair_view(b0[k])));
                }
                assert forall|k: int| 0 <= k < a@.len() implies !pair_lt(pair_view(x), pair_view(#[trigger] a@[k])) by {
                    if b0.len() > 0 && a0.len() > 0 {
                        lemma_pair_order(pair_view(a0[k]), pair_view(a0[k]), pair_view(a0[k]));
                        assert(!pair_lt(pair_view(a0[a0.len() - 1]), pair_view(a0[k])));
                        lemma_pair_order(pair_view(a0[a0.len() - 1]), pair_view(x), pair_view(x));
                        lemma_pair_order(pair_view(a0[k]), pair_view(a0[a0.len() - 1]), pair_view(x));
                    }
                }
            }
            assert forall|i: int| 0 <= i < d0.len() implies !pair_lt(pair_view(#[trigger] d0[i]), pair_view(x)) by {
                if take_a {
                    assert(a0[a0.len() - 1] == x);
                } else {
                    assert(b0[b0.len() - 1] == x);
                }
            }
        }
        down.push(x);
        proof {
            assert forall|i: int, j: int| 0 <= i < j < down@.len() implies !pair_lt(
                pair_view(#[trigger] down@[i]),
                pair_view(#[trigger] down@[j]),
            ) by {
                if j < d0.len() {
                    assert(down@[i] == d0[i] && down@[j] == d0[j]);
                } else {
                    assert(down@[i] == d0[i]);
                }
            }
            assert forall|i: int, k: int| 0 <= i < down@.len() && 0 <= k < a@.len() implies !pair_lt(
                pair_view(#[trigger] down@[i]),
                pair_view(#[trigger] a@[k]),
            ) by {
                if i < d0.len() {
                    assert(down@[i] == d0[i]);
                    if take_a {
                        assert(a@[k] == a0[k]);
                    } else {
                        assert(a@[k] == a0[k]);
                    }
                }
            }
            assert forall|i: int, k: int| 0 <= i < down@.len() && 0 <= k < b@.len() implies !pair_lt(
                pair_view(#[trigger] down@[i]),
                pair_view(#[trigger] b@[k]),
            ) by {
                if i < d0.len() {
                    assert(down@[i] == d0[i]);
                    assert(b@[k] == b0[k]);
                }
            }
            if take_a {
                assert(a0 == a@.push(x));
                vstd::seq_lib::to_multiset_build(a@, x);
            } else {
                assert(b0 == b@.push(x));
                vstd::seq_lib::to_multiset_build(b@, x);
            }
            assert(down@ == d0.push(x));
            vstd::seq_lib::to_multiset_build(d0, x);
            assert(a@.to_multiset().add(b@.to_multiset()).add(down@.to_multiset()) =~= total);
        }
    }
    proof {
        assert(a@.to_multiset() =~= vstd::multiset::Multiset::empty());
        assert(b@.to_multiset() =~= vstd::multiset::Multiset::empty());
        assert(down@.to_multiset() =~= total);
    }
    let mut out: Vec<(String, String)> = Vec::new();
    let ghost n = down@.len();
    let ghost full = down@;
    while down.len() > 0
        invariant
            down@ == full.take(down@.len() as int),
            down@.len() <= n == full.len(),
            pairs_sorted_down(full),
            out@.len() + down@.len() == n,
            forall|i: int| 0 <= i < out@.len() ==> #[trigger] out@[i] == full[n - 1 - i],
        decreases down@.len(),
    {
        let ghost d0 = down@;
        match down.pop() {
            Some(x) => {
                out.push(x);
                proof {
                    assert(down@ =~= full.take(down@.len() as int));
                }
            },
            None => {},
        }
    }
    proof {
        assert(out@ =~= full.reverse());
        full.lemma_reverse_to_multiset();
        assert forall|i: int, j: int| 0 <= i < j < out@.len() implies !pair_lt(
            pair_view(#[trigger] out@[j]),
            pair_view(#[trigger] out@[i]),
        ) by {
            assert(out@[i] == full[n - 1 - i] && out@[j] == full[n - 1 - j]);
        }
    }
    out
}

/// Sort pairs by key, then value: a sorted rearrangement of the input.
pub fn sort_pairs(v: Vec<(String, String)>) -> (r: Vec<(String, String)>)
    ensures
        pairs_sorted(r@),
        r@.to_multiset() == v@.to_multiset(),
    decreases v@.len(),
{
    if v.len() <= 1 {
        return v;
    }
    let mut left = v;
    let ghost whole = left@;
    let mid = left.len() / 2;
    let right = left.split_off(mid);
    proof {
        assert(whole =~= left@ + right@);
        vstd::seq_lib::lemma_multiset_commutative(left@, right@);
    }
    let l = sort_pairs(left);
    let r = sort_pairs(right);
    merge_pairs(l, r)
}

/// Rearranging a sequence rearranges its image under `f` alike.
pub proof fn lemma_multiset_map<A, B>(s1: Seq<A>, s2: Seq<A>, f: spec_fn(A) -> B)
    requires
        s1.to_multiset() == s2.to_multiset(),
    ensures
        s1.map_values(f).to_multiset() == s2.map_values(f).to_multiset(),
    decreases s1.len(),
{
    broadcast use vstd::seq_lib::group_to_multiset_ensures;
    broadcast use vstd::multiset::group_multiset_axioms;

    if s1.len() == 0 {
        assert(s1.to_multiset().len() == 0);
        assert(s2.to_multiset().len() == s2.len());
        assert(s2.len() == 0);
        assert(s1.map_values(f) =~= Seq::<B>::empty());
        assert(s2.map_values(f) =~= Seq::<B>::empty());
    } else {
        let x = s1.last();
        let p1 = s1.drop_last();
        assert(p1.push(x) =~= s1);
        vstd::seq_lib::to_multiset_build(p1, x);
        assert(s1.to_multiset().count(x) > 0);
        assert(s2.contains(x));
        let k = choose|k: int| 0 <= k < s2.len() && s2[k] == x;
        let p2 = s2.remove(k);
        assert(p2.to_multiset() =~= s2.to_multiset().remove(x));
        assert(p1.to_multiset() =~= s1.to_multiset().remove(x));
        lemma_multiset_map(p1, p2, f);
        assert(s1.map_values(f) =~= p1.map_values(f).push(f(x)));
        vstd::seq_lib::to_multiset_build(p1.map_values(f), f(x));
        let m2 = s2.map_values(f);
        assert(m2.remove(k) =~= p2.map_values(f));
        assert(m2[k] == f(x));
        assert(m2.remove(k).to_multiset() =~= m2.to_multiset().remove(f(x)));
        assert(m2.to_multiset().count(f(x)) > 0);
        assert(m2.to_multiset() =~= m2.to_multiset().remove(f(x)).insert(f(x)));
    }
}

} // verus!
