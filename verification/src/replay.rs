//! Bulk imports as replays of assignments: each accepted row sets one count,
//! the last write wins. Replaying the same rows again changes nothing.
use crate::nested::followers;
use vstd::prelude::*;

verus! {

/// `m` after replaying `rows` in order: every row that `ok` accepts sets the
/// count of its `(outer, inner)` pair.
pub open spec fn assigned(
    m: Map<Seq<char>, Map<Seq<char>, u32>>,
    rows: Seq<(Seq<char>, Seq<char>, u32)>,
    ok: spec_fn((Seq<char>, Seq<char>, u32)) -> bool,
) -> Map<Seq<char>, Map<Seq<char>, u32>>
    decreases rows.len(),
{
    if rows.len() == 0 {
        m
    } else {
        let before = assigned(m, rows.drop_last(), ok);
        let r = rows.last();
        if ok(r) {
            before.insert(r.0, followers(before, r.0).insert(r.1, r.2))
        } else {
            before
        }
    }
}

/// The count the last accepted row for `(p, n)` sets, if any row does.
pub open spec fn last_set(
    rows: Seq<(Seq<char>, Seq<char>, u32)>,
    ok: spec_fn((Seq<char>, Seq<char>, u32)) -> bool,
    p: Seq<char>,
    n: Seq<char>,
) -> Option<u32>
    decreases rows.len(),
{
    if rows.len() == 0 {
        None
    } else {
        let r = rows.last();
        if ok(r) && r.0 == p && r.1 == n {
            Some(r.2)
        } else {
            last_set(rows.drop_last(), ok, p, n)
        }
    }
}

/// Some accepted row has outer key `p`.
pub open spec fn touches(
    rows: Seq<(Seq<char>, Seq<char>, u32)>,
    ok: spec_fn((Seq<char>, Seq<char>, u32)) -> bool,
    p: Seq<char>,
) -> bool
    decreases rows.len(),
{
    if rows.len() == 0 {
        false
    } else {
        (ok(rows.last()) && rows.last().0 == p) || touches(rows.drop_last(), ok, p)
    }
}

/// What a replay leaves at one pair: the last accepted write, else what was
/// there.
pub proof fn lemma_assigned_at(
    m: Map<Seq<char>, Map<Seq<char>, u32>>,
    rows: Seq<(Seq<char>, Seq<char>, u32)>,
    ok: spec_fn((Seq<char>, Seq<char>, u32)) -> bool,
    p: Seq<char>,
    n: Seq<char>,
)
    ensures
        assigned(m, rows, ok).contains_key(p) == (m.contains_key(p) || touches(rows, ok, p)),
        followers(assigned(m, rows, ok), p).contains_key(n) == (followers(m, p).contains_key(n)
            || last_set(rows, ok, p, n) is Some),
        followers(assigned(m, rows, ok), p).contains_key(n) ==> followers(assigned(m, rows, ok), p)[n]
            == (match last_set(rows, ok, p, n) {
            Some(c) => c,
            None => followers(m, p)[n],
        }),
        last_set(rows, ok, p, n) is Some ==> touches(rows, ok, p),
    decreases rows.len(),
{
    if rows.len() > 0 {
        lemma_assigned_at(m, rows.drop_last(), ok, p, n);
    }
}

/// Replaying the same rows a second time changes nothing.
pub proof fn lemma_assigned_idempotent(
    m: Map<Seq<char>, Map<Seq<char>, u32>>,
    rows: Seq<(Seq<char>, Seq<char>, u32)>,
    ok: spec_fn((Seq<char>, Seq<char>, u32)) -> bool,
)
    ensures
        assigned(assigned(m, rows, ok), rows, ok) == assigned(m, rows, ok),
{
    let once = assigned(m, rows, ok);
    let twice = assigned(once, rows, ok);
    assert forall|p: Seq<char>| #[trigger] twice.contains_key(p) <==> once.contains_key(p) by {
        lemma_assigned_at(m, rows, ok, p, p);
        lemma_assigned_at(once, rows, ok, p, p);
    }
    assert forall|p: Seq<char>| #[trigger] twice.contains_key(p) implies twice[p] == once[p] by {
        lemma_assigned_at(m, rows, ok, p, p);
        lemma_assigned_at(once, rows, ok, p, p);
        assert forall|n: Seq<char>| #[trigger] twice[p].contains_key(n) <==> once[p].contains_key(n) by {
            lemma_assigned_at(m, rows, ok, p, n);
            lemma_assigned_at(once, rows, ok, p, n);
        }
        assert forall|n: Seq<char>| #[trigger] twice[p].contains_key(n) implies twice[p][n] == once[p][n] by {
            lemma_assigned_at(m, rows, ok, p, n);
            lemma_assigned_at(once, rows, ok, p, n);
        }
        assert(twice[p] =~= once[p]);
    }
    assert(twice =~= once);
}

/// `m` after replaying flat `rows` in order: every row that `ok` accepts sets
/// its key's count.
pub open spec fn assigned_flat(
    m: Map<Seq<char>, u32>,
    rows: Seq<(Seq<char>, u32)>,
    ok: spec_fn((Seq<char>, u32)) -> bool,
) -> Map<Seq<char>, u32>
    decreases rows.len(),
{
    if rows.len() == 0 {
        m
    } else {
        let before = assigned_flat(m, rows.drop_last(), ok);
        if ok(rows.last()) {
            before.insert(rows.last().0, rows.last().1)
        } else {
            before
        }
    }
}

/// The count the last accepted row for `k` sets, if any row does.
pub open spec fn last_set_flat(
    rows: Seq<(Seq<char>, u32)>,
    ok: spec_fn((Seq<char>, u32)) -> bool,
    k: Seq<char>,
) -> Option<u32>
    decreases rows.len(),
{
    if rows.len() == 0 {
        None
    } else if ok(rows.last()) && rows.last().0 == k {
        Some(rows.last().1)
    } else {
        last_set_flat(rows.drop_last(), ok, k)
    }
}

/// What a flat replay leaves at one key.
pub proof fn lemma_assigned_flat_at(
    m: Map<Seq<char>, u32>,
    rows: Seq<(Seq<char>, u32)>,
    ok: spec_fn((Seq<char>, u32)) -> bool,
    k: Seq<char>,
)
    ensures
        assigned_flat(m, rows, ok).contains_key(k) == (m.contains_key(k) || last_set_flat(rows, ok, k) is Some),
        assigned_flat(m, rows, ok).contains_key(k) ==> assigned_flat(m, rows, ok)[k] == (match last_set_flat(
            rows,
            ok,
            k,
        ) {
            Some(c) => c,
            None => m[k],
        }),
    decreases rows.len(),
{
    if rows.len() > 0 {
        lemma_assigned_flat_at(m, rows.drop_last(), ok, k);
    }
}

/// Replaying the same flat rows a second time changes nothing.
pub proof fn lemma_assigned_flat_idempotent(
    m: Map<Seq<char>, u32>,
    rows: Seq<(Seq<char>, u32)>,
    ok: spec_fn((Seq<char>, u32)) -> bool,
)
    ensures
        assigned_flat(assigned_flat(m, rows, ok), rows, ok) == assigned_flat(m, rows, ok),
{
    let once = assigned_flat(m, rows, ok);
    let twice = assigned_flat(once, rows, ok);
    assert forall|k: Seq<char>| #[trigger] twice.contains_key(k) <==> once.contains_key(k) by {
        lemma_assigned_flat_at(m, rows, ok, k);
        lemma_assigned_flat_at(once, rows, ok, k);
    }
    assert forall|k: Seq<char>| #[trigger] twice.contains_key(k) implies twice[k] == once[k] by {
        lemma_assigned_flat_at(m, rows, ok, k);
        lemma_assigned_flat_at(once, rows, ok, k);
    }
    assert(twice =~= once);
}

} // verus!
