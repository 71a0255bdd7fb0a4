//! Association lists with distinct keys, kept in first-insertion order, and
//! the map they stand for.
use vstd::prelude::*;

verus! {

/// The map an association list stands for: later entries win.
pub open spec fn key_map<K, V>(s: Seq<(K, V)>) -> Map<K, V>
    decreases s.len(),
{
    if s.len() == 0 {
        Map::empty()
    } else {
        key_map(s.drop_last()).insert(s.last().0, s.last().1)
    }
}

/// Each key occurs once.
pub open spec fn keys_distinct<K, V>(s: Seq<(K, V)>) -> bool {
    forall|i: int, j: int| 0 <= i < s.len() && 0 <= j < s.len() && i != j ==> (#[trigger] s[i]).0 != (
    #[trigger] s[j]).0
}

/// With distinct keys, the map holds exactly the list's entries.
pub proof fn lemma_key_map<K, V>(s: Seq<(K, V)>)
    requires
        keys_distinct(s),
    ensures
        forall|k: K|
            #[trigger] key_map(s).contains_key(k) <==> exists|i: int|
                0 <= i < s.len() && (#[trigger] s[i]).0 == k,
        forall|i: int| 0 <= i < s.len() ==> key_map(s)[(#[trigger] s[i]).0] == s[i].1,
        key_map(s).dom().finite(),
        key_map(s).dom().len() == s.len(),
    decreases s.len(),
{
    if s.len() > 0 {
        let p = s.drop_last();
        let n = s.len() - 1;
        assert(keys_distinct(p)) by {
            assert forall|i: int, j: int|
                0 <= i < p.len() && 0 <= j < p.len() && i != j implies (#[trigger] p[i]).0 != (
            #[trigger] p[j]).0 by {
                assert(p[i] == s[i] && p[j] == s[j]);
            }
        }
        lemma_key_map(p);
        assert forall|k: K| #[trigger] key_map(s).contains_key(k) <==> exists|i: int|
            0 <= i < s.len() && (#[trigger] s[i]).0 == k by {
            if key_map(s).contains_key(k) && k != s[n].0 {
                let i = choose|i: int| 0 <= i < p.len() && (#[trigger] p[i]).0 == k;
                assert(s[i] == p[i]);
            }
            if exists|i: int| 0 <= i < s.len() && (#[trigger] s[i]).0 == k {
                let i = choose|i: int| 0 <= i < s.len() && (#[trigger] s[i]).0 == k;
                if i < n {
                    assert(p[i] == s[i]);
                }
            }
        }
        assert forall|i: int| 0 <= i < s.len() implies key_map(s)[(#[trigger] s[i]).0] == s[i].1 by {
            if i < n {
                assert(p[i] == s[i]);
            }
        }
        assert(!key_map(p).contains_key(s[n].0)) by {
            if key_map(p).contains_key(s[n].0) {
                let i = choose|i: int| 0 <= i < p.len() && (#[trigger] p[i]).0 == s[n].0;
                assert(p[i] == s[i]);
            }
        }
    }
}

/// Changing the value at `i` changes the map at that key only.
pub proof fn lemma_key_map_update<K, V>(s: Seq<(K, V)>, i: int, v: V)
    requires
        keys_distinct(s),
        0 <= i < s.len(),
    ensures
        keys_distinct(s.update(i, (s[i].0, v))),
        key_map(s.update(i, (s[i].0, v))) == key_map(s).insert(s[i].0, v),
{
    let t = s.update(i, (s[i].0, v));
    assert forall|a: int, b: int| 0 <= a < t.len() && 0 <= b < t.len() && a != b implies (
    #[trigger] t[a]).0 != (#[trigger] t[b]).0 by {
        assert(t[a].0 == s[a].0 && t[b].0 == s[b].0);
    }
    lemma_key_map(s);
    lemma_key_map(t);
    assert forall|k: K| #[trigger] key_map(t).contains_key(k) <==> key_map(s).insert(
        s[i].0,
        v,
    ).contains_key(k) by {
        if exists|a: int| 0 <= a < t.len() && (#[trigger] t[a]).0 == k {
            let a = choose|a: int| 0 <= a < t.len() && (#[trigger] t[a]).0 == k;
            assert(t[a].0 == s[a].0);
        }
        if key_map(s).contains_key(k) {
            let a = choose|a: int| 0 <= a < s.len() && (#[trigger] s[a]).0 == k;
            assert(t[a].0 == s[a].0);
        }
        assert(t[i].0 == s[i].0);
    }
    assert forall|k: K| #[trigger] key_map(t).contains_key(k) implies key_map(t)[k] == key_map(
        s,
    ).insert(s[i].0, v)[k] by {
        let a = choose|a: int| 0 <= a < t.len() && (#[trigger] t[a]).0 == k;
        if a != i {
            assert(t[a] == s[a]);
        }
    }
    assert(key_map(t) =~= key_map(s).insert(s[i].0, v));
}

/// Appending a new key adds it to the map.
pub proof fn lemma_key_map_push<K, V>(s: Seq<(K, V)>, k: K, v: V)
    requires
        keys_distinct(s),
        !key_map(s).contains_key(k),
    ensures
        keys_distinct(s.push((k, v))),
        key_map(s.push((k, v))) == key_map(s).insert(k, v),
{
    lemma_key_map(s);
    let t = s.push((k, v));
    assert forall|a: int, b: int| 0 <= a < t.len() && 0 <= b < t.len() && a != b implies (
    #[trigger] t[a]).0 != (#[trigger] t[b]).0 by {
        if a < s.len() && b < s.len() {
            assert(t[a] == s[a] && t[b] == s[b]);
        } else if a < s.len() {
            assert(t[a] == s[a]);
        } else {
            assert(t[b] == s[b]);
        }
    }
    assert(t.drop_last() =~= s);
}

} // verus!
