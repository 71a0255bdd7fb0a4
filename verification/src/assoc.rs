//! Text-keyed association lists kept in ascending key order: the ordered maps
//! the learned models store their counts in. The abstract value of such a list
//! is a `Map` from key characters to values; these lemmas relate edits of the
//! list to edits of that map.
use crate::text::{compare_text, lemma_seq_lt_irreflexive, lemma_seq_lt_transitive, seq_lt, Order};
use vstd::prelude::*;

verus! {

/// The map an association list stands for: later entries win.
pub open spec fn text_map<V>(s: Seq<(String, V)>) -> Map<Seq<char>, V>
    decreases s.len(),
{
    if s.len() == 0 {
        Map::empty()
    } else {
        text_map(s.drop_last()).insert(s.last().0@, s.last().1)
    }
}

/// Keys strictly ascending in `str` order (so each key occurs once).
pub open spec fn sorted_by_text<V>(s: Seq<(String, V)>) -> bool {
    forall|i: int, j: int| 0 <= i < j < s.len() ==> seq_lt(#[trigger] s[i].0@, #[trigger] s[j].0@)
}

/// The keys of an association list, as character sequences.
pub open spec fn text_keys<V>(s: Seq<(String, V)>) -> Seq<Seq<char>> {
    s.map_values(|e: (String, V)| e.0@)
}

/// A sorted list holds each key once, and its map holds exactly its entries.
pub proof fn lemma_text_map<V>(s: Seq<(String, V)>)
    requires
        sorted_by_text(s),
    ensures
        forall|k: Seq<char>|
            #[trigger] text_map(s).contains_key(k) <==> exists|i: int|
                0 <= i < s.len() && (#[trigger] s[i]).0@ == k,
        forall|i: int| 0 <= i < s.len() ==> text_map(s)[(#[trigger] s[i]).0@] == s[i].1,
        forall|i: int, j: int| 0 <= i < s.len() && 0 <= j < s.len() && i != j ==> (#[trigger] s[i]).0@
            != (#[trigger] s[j]).0@,
        text_map(s).dom().finite(),
        text_map(s).dom().len() == s.len(),
    decreases s.len(),
{
    assert forall|i: int, j: int| 0 <= i < s.len() && 0 <= j < s.len() && i != j implies (
    #[trigger] s[i]).0@ != (#[trigger] s[j]).0@ by {
        if i < j {
            lemma_seq_lt_irreflexive(s[i].0@);
        } else {
            lemma_seq_lt_irreflexive(s[j].0@);
        }
    }
    if s.len() > 0 {
        let p = s.drop_last();
        assert(sorted_by_text(p)) by {
            assert forall|i: int, j: int| 0 <= i < j < p.len() implies seq_lt(
                #[trigger] p[i].0@,
                #[trigger] p[j].0@,
            ) by {
                assert(p[i] == s[i] && p[j] == s[j]);
            }
        }
        lemma_text_map(p);
        let n = s.len() - 1;
        assert forall|k: Seq<char>| #[trigger] text_map(s).contains_key(k) <==> exists|i: int|
            0 <= i < s.len() && (#[trigger] s[i]).0@ == k by {
            if text_map(s).contains_key(k) && k != s[n].0@ {
                let i = choose|i: int| 0 <= i < p.len() && (#[trigger] p[i]).0@ == k;
                assert(s[i] == p[i]);
            }
            if exists|i: int| 0 <= i < s.len() && (#[trigger] s[i]).0@ == k {
                let i = choose|i: int| 0 <= i < s.len() && (#[trigger] s[i]).0@ == k;
                if i < n {
                    assert(p[i] == s[i]);
                }
            }
        }
        assert forall|i: int| 0 <= i < s.len() implies text_map(s)[(#[trigger] s[i]).0@]
            == s[i].1 by {
            if i < n {
                assert(p[i] == s[i]);
                assert(s[i].0@ != s[n].0@);
            }
        }
        assert(!text_map(p).contains_key(s[n].0@)) by {
            if text_map(p).contains_key(s[n].0@) {
                let i = choose|i: int| 0 <= i < p.len() && (#[trigger] p[i]).0@ == s[n].0@;
                assert(p[i] == s[i]);
            }
        }
    }
}

/// Changing the value at `i` changes the map at that key only.
pub proof fn lemma_text_map_update<V>(s: Seq<(String, V)>, i: int, v: V)
    requires
        sorted_by_text(s),
        0 <= i < s.len(),
    ensures
        sorted_by_text(s.update(i, (s[i].0, v))),
        text_map(s.update(i, (s[i].0, v))) == text_map(s).insert(s[i].0@, v),
{
    let t = s.update(i, (s[i].0, v));
    assert forall|a: int, b: int| 0 <= a < b < t.len() implies seq_lt(
        #[trigger] t[a].0@,
        #[trigger] t[b].0@,
    ) by {
        assert(t[a].0 == s[a].0 && t[b].0 == s[b].0);
    }
    lemma_text_map(s);
    lemma_text_map(t);
    assert forall|k: Seq<char>| #[trigger] text_map(t).contains_key(k) <==> text_map(s).insert(
        s[i].0@,
        v,
    ).contains_key(k) by {
        if exists|a: int| 0 <= a < t.len() && (#[trigger] t[a]).0@ == k {
            let a = choose|a: int| 0 <= a < t.len() && (#[trigger] t[a]).0@ == k;
            assert(t[a].0 == s[a].0);
        }
        if text_map(s).contains_key(k) {
            let a = choose|a: int| 0 <= a < s.len() && (#[trigger] s[a]).0@ == k;
            assert(t[a].0 == s[a].0);
        }
        assert(t[i].0@ == s[i].0@);
    }
    assert forall|k: Seq<char>| #[trigger] text_map(t).contains_key(k) implies text_map(t)[k]
        == text_map(s).insert(s[i].0@, v)[k] by {
        let a = choose|a: int| 0 <= a < t.len() && (#[trigger] t[a]).0@ == k;
        assert(t[a].0 == s[a].0);
        if a != i {
            assert(t[a] == s[a]);
        }
    }
    assert(text_map(t) =~= text_map(s).insert(s[i].0@, v));
}

/// Inserting a new key at its sorted position adds it to the map.
pub proof fn lemma_text_map_insert<V>(s: Seq<(String, V)>, j: int, key: String, v: V)
    requires
        sorted_by_text(s),
        0 <= j <= s.len(),
        forall|i: int| 0 <= i < j ==> seq_lt((#[trigger] s[i]).0@, key@),
        forall|i: int| j <= i < s.len() ==> seq_lt(key@, (#[trigger] s[i]).0@),
    ensures
        sorted_by_text(s.insert(j, (key, v))),
        text_map(s.insert(j, (key, v))) == text_map(s).insert(key@, v),
        !text_map(s).contains_key(key@),
{
    let t = s.insert(j, (key, v));
    assert forall|a: int, b: int| 0 <= a < b < t.len() implies seq_lt(
        #[trigger] t[a].0@,
        #[trigger] t[b].0@,
    ) by {
        if b < j {
            assert(t[a] == s[a] && t[b] == s[b]);
        } else if b == j {
            assert(t[a] == s[a]);
        } else if a < j {
            assert(t[a] == s[a] && t[b] == s[b - 1]);
            lemma_seq_lt_transitive(s[a].0@, key@, s[b - 1].0@);
        } else if a == j {
            assert(t[b] == s[b - 1]);
        } else {
            assert(t[a] == s[a - 1] && t[b] == s[b - 1]);
        }
    }
    lemma_text_map(s);
    lemma_text_map(t);
    assert(!text_map(s).contains_key(key@)) by {
        if text_map(s).contains_key(key@) {
            let a = choose|a: int| 0 <= a < s.len() && (#[trigger] s[a]).0@ == key@;
            lemma_seq_lt_irreflexive(key@);
        }
    }
    assert forall|k: Seq<char>| #[trigger] text_map(t).contains_key(k) <==> text_map(s).insert(
        key@,
        v,
    ).contains_key(k) by {
        if exists|a: int| 0 <= a < t.len() && (#[trigger] t[a]).0@ == k {
            let a = choose|a: int| 0 <= a < t.len() && (#[trigger] t[a]).0@ == k;
            if a < j {
                assert(t[a] == s[a]);
            } else if a > j {
                assert(t[a] == s[a - 1]);
            }
        }
        if text_map(s).contains_key(k) {
            let a = choose|a: int| 0 <= a < s.len() && (#[trigger] s[a]).0@ == k;
            if a < j {
                assert(t[a] == s[a]);
            } else {
                assert(t[a + 1] == s[a]);
            }
        }
        assert(t[j].0@ == key@);
    }
    assert forall|k: Seq<char>| #[trigger] text_map(t).contains_key(k) implies text_map(t)[k]
        == text_map(s).insert(key@, v)[k] by {
        let a = choose|a: int| 0 <= a < t.len() && (#[trigger] t[a]).0@ == k;
        if a < j {
            assert(t[a] == s[a]);
        } else if a > j {
            assert(t[a] == s[a - 1]);
        }
    }
    assert(text_map(t) =~= text_map(s).insert(key@, v));
}

/// Removing the entry at `i` removes its key from the map.
pub proof fn lemma_text_map_remove<V>(s: Seq<(String, V)>, i: int)
    requires
        sorted_by_text(s),
        0 <= i < s.len(),
    ensures
        sorted_by_text(s.remove(i)),
        text_map(s.remove(i)) == text_map(s).remove(s[i].0@),
{
    let t = s.remove(i);
    assert forall|a: int, b: int| 0 <= a < b < t.len() implies seq_lt(
        #[trigger] t[a].0@,
        #[trigger] t[b].0@,
    ) by {
        if b < i {
            assert(t[a] == s[a] && t[b] == s[b]);
        } else if a < i {
            assert(t[a] == s[a] && t[b] == s[b + 1]);
        } else {
            assert(t[a] == s[a + 1] && t[b] == s[b + 1]);
        }
    }
    lemma_text_map(s);
    lemma_text_map(t);
    assert forall|k: Seq<char>| #[trigger] text_map(t).contains_key(k) <==> text_map(s).remove(
        s[i].0@,
    ).contains_key(k) by {
        if exists|a: int| 0 <= a < t.len() && (#[trigger] t[a]).0@ == k {
            let a = choose|a: int| 0 <= a < t.len() && (#[trigger] t[a]).0@ == k;
            if a < i {
                assert(t[a] == s[a]);
            } else {
                assert(t[a] == s[a + 1]);
            }
        }
        if text_map(s).contains_key(k) && k != s[i].0@ {
            let a = choose|a: int| 0 <= a < s.len() && (#[trigger] s[a]).0@ == k;
            if a < i {
                assert(t[a] == s[a]);
            } else {
                assert(t[a - 1] == s[a]);
            }
        }
    }
    assert forall|k: Seq<char>| #[trigger] text_map(t).contains_key(k) implies text_map(t)[k]
        == text_map(s).remove(s[i].0@)[k] by {
        let a = choose|a: int| 0 <= a < t.len() && (#[trigger] t[a]).0@ == k;
        if a < i {
            assert(t[a] == s[a]);
        } else {
            assert(t[a] == s[a + 1]);
        }
    }
    assert(text_map(t) =~= text_map(s).remove(s[i].0@));
}

/// Locate `key` in a sorted list by binary search: `Ok(i)` where it sits, or
/// `Err(j)`, the position where it would be inserted to keep the order.
pub fn find_text<V>(s: &Vec<(String, V)>, key: &str) -> (r: Result<usize, usize>)
    requires
        sorted_by_text(s@),
    ensures
        r matches Ok(i) ==> i < s@.len() && s@[i as int].0@ == key@ && text_map(s@).contains_key(
            key@,
        ) && text_map(s@)[key@] == s@[i as int].1,
        r matches Err(j) ==> {
            &&& j <= s@.len()
            &&& forall|i: int| 0 <= i < j ==> seq_lt((#[trigger] s@[i]).0@, key@)
            &&& forall|i: int| j <= i < s@.len() ==> seq_lt(key@, (#[trigger] s@[i]).0@)
            &&& !text_map(s@).contains_key(key@)
        },
{
    let mut lo: usize = 0;
    let mut hi: usize = s.len();
    while lo < hi
        invariant
            sorted_by_text(s@),
            lo <= hi <= s@.len(),
            forall|i: int| 0 <= i < lo ==> seq_lt((#[trigger] s@[i]).0@, key@),
            forall|i: int| hi <= i < s@.len() ==> seq_lt(key@, (#[trigger] s@[i]).0@),
        decreases hi - lo,
    {
        let mid = lo + (hi - lo) / 2;
        match compare_text(s[mid].0.as_str(), key) {
            Order::Equal => {
                proof {
                    lemma_text_map(s@);
                }
                return Ok(mid);
            },
            Order::Less => {
                assert forall|i: int| 0 <= i < mid + 1 implies seq_lt(
                    (#[trigger] s@[i]).0@,
                    key@,
                ) by {
                    if i < mid {
                        lemma_seq_lt_transitive(s@[i].0@, s@[mid as int].0@, key@);
                    }
                }
                lo = mid + 1;
            },
            Order::Greater => {
                assert forall|i: int| mid <= i < s@.len() implies seq_lt(
                    key@,
                    (#[trigger] s@[i]).0@,
                ) by {
                    if i > mid {
                        lemma_seq_lt_transitive(key@, s@[mid as int].0@, s@[i].0@);
                    }
                }
                hi = mid;
            },
        }
    }
    proof {
        lemma_text_map(s@);
        if text_map(s@).contains_key(key@) {
            let a = choose|a: int| 0 <= a < s@.len() && (#[trigger] s@[a]).0@ == key@;
            lemma_seq_lt_irreflexive(key@);
        }
    }
    Err(lo)
}

} // verus!
