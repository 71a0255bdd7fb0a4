//! Plain Levenshtein distance over Unicode scalar values.
use crate::text::chars_of;
use vstd::prelude::*;

verus! {

/// The cost of aligning two characters: 0 when equal, 1 otherwise.
pub open spec fn subst_cost(x: char, y: char) -> nat {
    if x == y {
        0
    } else {
        1
    }
}

/// The least of three numbers.
pub open spec fn min3(x: nat, y: nat, z: nat) -> nat {
    if x <= y && x <= z {
        x
    } else if y <= z {
        y
    } else {
        z
    }
}

/// Levenshtein distance: the fewest single-character deletions, insertions
/// and substitutions turning `a` into `b`.
pub open spec fn levenshtein(a: Seq<char>, b: Seq<char>) -> nat
    decreases a.len() + b.len(),
{
    if a.len() == 0 {
        b.len()
    } else if b.len() == 0 {
        a.len()
    } else {
        min3(
            levenshtein(a.drop_last(), b) + 1,
            levenshtein(a, b.drop_last()) + 1,
            levenshtein(a.drop_last(), b.drop_last()) + subst_cost(a.last(), b.last()),
        )
    }
}

/// The distance is zero exactly between equal texts.
pub proof fn distance_is_zero_exactly_for_equal_texts(a: Seq<char>, b: Seq<char>)
    ensures
        levenshtein(a, b) == 0 <==> a == b,
    decreases a.len() + b.len(),
{
    if a.len() > 0 && b.len() > 0 {
        distance_is_zero_exactly_for_equal_texts(a.drop_last(), b.drop_last());
        if a == b {
            assert(a.drop_last() == b.drop_last());
        }
        if levenshtein(a, b) == 0 {
            assert(a.drop_last() == b.drop_last() && a.last() == b.last());
            assert(a =~= a.drop_last().push(a.last()));
            assert(b =~= b.drop_last().push(b.last()));
        }
    } else if a.len() == 0 && b.len() == 0 {
        assert(a =~= b);
    }
}

/// The distance from `a` to `b` is the distance from `b` to `a`.
pub proof fn distance_is_symmetric(a: Seq<char>, b: Seq<char>)
    ensures
        levenshtein(a, b) == levenshtein(b, a),
    decreases a.len() + b.len(),
{
    if a.len() > 0 && b.len() > 0 {
        distance_is_symmetric(a.drop_last(), b);
        distance_is_symmetric(a, b.drop_last());
        distance_is_symmetric(a.drop_last(), b.drop_last());
    }
}

/// The distance never exceeds the longer length.
pub proof fn lemma_levenshtein_bound(a: Seq<char>, b: Seq<char>)
    ensures
        levenshtein(a, b) <= if a.len() >= b.len() {
            a.len()
        } else {
            b.len()
        },
    decreases a.len() + b.len(),
{
    if a.len() > 0 && b.len() > 0 {
        lemma_levenshtein_bound(a.drop_last(), b.drop_last());
    }
}

/// Levenshtein distance between `typed` and `winner`, counted in characters,
/// capped at the longer length (a cap the distance never exceeds).
pub fn edit_distance(typed: &str, winner: &str) -> (d: u32)
    requires
        typed@.len() < usize::MAX,
        winner@.len() < usize::MAX,
    ensures
        d == levenshtein(typed@, winner@) as u32,
{
    let a = chars_of(typed);
    let b = chars_of(winner);
    let cap = if a.len() >= b.len() {
        a.len()
    } else {
        b.len()
    };
    if a.len() == 0 {
        return b.len() as u32;
    }
    if b.len() == 0 {
        return a.len() as u32;
    }
    let m = b.len();
    let mut prev: Vec<usize> = Vec::new();
    for j in 0..m + 1
        invariant
            m == b@.len(),
            m < usize::MAX,
            prev@.len() == j,
            forall|k: int| 0 <= k < j ==> prev@[k] == levenshtein(a@.take(0), b@.take(k)),
    {
        proof {
            assert(a@.take(0).len() == 0);
        }
        prev.push(j);
    }
    let mut curr: Vec<usize> = Vec::new();
    for j in 0..m + 1
        invariant
            curr@.len() == j,
    {
        curr.push(0);
    }
    for i in 0..a.len()
        invariant
            m == b@.len(),
            m < usize::MAX,
            a@.len() < usize::MAX,
            prev@.len() == m + 1,
            curr@.len() == m + 1,
            forall|k: int| 0 <= k <= m ==> prev@[k] == levenshtein(a@.take(i as int), b@.take(k)),
    {
        proof {
            lemma_levenshtein_bound(a@.take(i + 1), b@.take(0));
        }
        curr.set(0, i + 1);
        for j in 0..m
            invariant
                m == b@.len(),
                m < usize::MAX,
                i < a@.len() < usize::MAX,
                prev@.len() == m + 1,
                curr@.len() == m + 1,
                forall|k: int| 0 <= k <= m ==> prev@[k] == levenshtein(a@.take(i as int), b@.take(k)),
                forall|k: int| 0 <= k <= j ==> curr@[k] == levenshtein(a@.take(i + 1), b@.take(k)),
        {
            let cost: usize = if a[i] != b[j] {
                1
            } else {
                0
            };
            proof {
                let x = a@.take(i + 1);
                let y = b@.take(j + 1);
                assert(x.drop_last() =~= a@.take(i as int));
                assert(y.drop_last() =~= b@.take(j as int));
                assert(x.last() == a@[i as int]);
                assert(y.last() == b@[j as int]);
                lemma_levenshtein_bound(a@.take(i as int), b@.take(j + 1));
                lemma_levenshtein_bound(a@.take(i + 1), b@.take(j as int));
                lemma_levenshtein_bound(a@.take(i as int), b@.take(j as int));
            }
            let del = prev[j + 1] + 1;
            let ins = curr[j] + 1;
            let sub = prev[j] + cost;
            let mut best = del;
            if ins < best {
                best = ins;
            }
            if sub < best {
                best = sub;
            }
            curr.set(j + 1, best);
        }
        std::mem::swap(&mut prev, &mut curr);
    }
    proof {
        assert(a@.take(a@.len() as int) =~= a@);
        assert(b@.take(m as int) =~= b@);
        lemma_levenshtein_bound(a@, b@);
    }
    let d = if prev[m] < cap {
        prev[m]
    } else {
        cap
    };
    d as u32
}

} // verus!
