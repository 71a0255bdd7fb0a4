//! Character-sequence helpers shared by the learned models: conversion of
//! strings to characters, the lexicographic order of `str`, and the separator
//! rules that keep a token storable.
use vstd::prelude::*;
use vstd::string::StrSliceExecFns;

verus! {

/// Lexicographic order on character sequences, by code point. This is the
/// order `str` sorts in: UTF-8 byte order and code-point order agree.
pub open spec fn seq_lt(a: Seq<char>, b: Seq<char>) -> bool
    decreases a.len(),
{
    if a.len() == 0 {
        b.len() > 0
    } else if b.len() == 0 {
        false
    } else if a[0] != b[0] {
        a[0] < b[0]
    } else {
        seq_lt(a.drop_first(), b.drop_first())
    }
}

/// No sequence is below itself.
pub proof fn lemma_seq_lt_irreflexive(a: Seq<char>)
    ensures
        !seq_lt(a, a),
    decreases a.len(),
{
    if a.len() > 0 {
        lemma_seq_lt_irreflexive(a.drop_first());
    }
}

/// `str` order is lexicographic by code point: a proper prefix comes
/// first, and otherwise the first position where the two differ decides.
pub proof fn str_order_is_lexicographic(a: Seq<char>, b: Seq<char>, k: int)
    ensures
        k == a.len() && a.len() < b.len() && a == b.take(k) ==> seq_lt(a, b),
        0 <= k < a.len() && k < b.len() && a.take(k) == b.take(k) && a[k] < b[k] ==> seq_lt(a, b),
    decreases a.len(),
{
    if k == a.len() && a.len() < b.len() && a == b.take(k) && a.len() > 0 {
        assert(a[0] == b[0]);
        assert(a.drop_first() =~= b.drop_first().take(k - 1));
        str_order_is_lexicographic(a.drop_first(), b.drop_first(), k - 1);
    }
    if 0 <= k < a.len() && k < b.len() && a.take(k) == b.take(k) && a[k] < b[k] && k > 0 {
        assert(a[0] == a.take(k)[0] && b[0] == b.take(k)[0]);
        assert(a.drop_first().take(k - 1) =~= a.take(k).drop_first());
        assert(b.drop_first().take(k - 1) =~= b.take(k).drop_first());
        assert(a.drop_first()[k - 1] == a[k] && b.drop_first()[k - 1] == b[k]);
        str_order_is_lexicographic(a.drop_first(), b.drop_first(), k - 1);
    }
}

/// The order is asymmetric.
pub proof fn lemma_seq_lt_asymmetric(a: Seq<char>, b: Seq<char>)
    ensures
        seq_lt(a, b) ==> !seq_lt(b, a),
    decreases a.len(),
{
    if a.len() > 0 && b.len() > 0 && a[0] == b[0] {
        lemma_seq_lt_asymmetric(a.drop_first(), b.drop_first());
    }
}

/// The order is transitive.
pub proof fn lemma_seq_lt_transitive(a: Seq<char>, b: Seq<char>, c: Seq<char>)
    requires
        seq_lt(a, b),
        seq_lt(b, c),
    ensures
        seq_lt(a, c),
    decreases a.len(),
{
    if a.len() > 0 && b.len() > 0 && c.len() > 0 && a[0] == b[0] && b[0] == c[0] {
        lemma_seq_lt_transitive(a.drop_first(), b.drop_first(), c.drop_first());
    }
}

/// Two different sequences are ordered one way or the other.
pub proof fn lemma_seq_lt_total(a: Seq<char>, b: Seq<char>)
    ensures
        a == b || seq_lt(a, b) || seq_lt(b, a),
    decreases a.len(),
{
    if a.len() > 0 && b.len() > 0 && a[0] == b[0] {
        lemma_seq_lt_total(a.drop_first(), b.drop_first());
        if a.drop_first() == b.drop_first() {
            assert(a =~= seq![a[0]] + a.drop_first());
            assert(b =~= seq![b[0]] + b.drop_first());
        }
    } else if a.len() == 0 && b.len() == 0 {
        assert(a =~= b);
    }
}

/// The outcome of comparing two texts.
#[derive(Clone, Copy, Debug, PartialEq, Eq)]
pub enum Order {
    Less,
    Equal,
    Greater,
}

/// What an [`Order`] says of two sequences.
pub open spec fn order_holds(r: Order, a: Seq<char>, b: Seq<char>) -> bool {
    match r {
        Order::Less => seq_lt(a, b),
        Order::Equal => a == b,
        Order::Greater => seq_lt(b, a),
    }
}

/// The characters of `s`, in order.
pub fn chars_of(s: &str) -> (out: Vec<char>)
    ensures
        out@ == s@,
{
    let mut out: Vec<char> = Vec::new();
    for c in it: s.chars()
        invariant
            out@ == it.seq().take(it.index() as int),
            it.seq() == s@,
    {
        out.push(c);
    }
    out
}

/// Compare two character vectors lexicographically.
pub fn compare_char_vecs(a: &Vec<char>, b: &Vec<char>) -> (r: Order)
    ensures
        order_holds(r, a@, b@),
        (r == Order::Less) <==> seq_lt(a@, b@),
        (r == Order::Equal) <==> a@ == b@,
        (r == Order::Greater) <==> seq_lt(b@, a@),
{
    proof {
        lemma_seq_lt_irreflexive(a@);
        lemma_seq_lt_asymmetric(a@, b@);
        lemma_seq_lt_total(a@, b@);
    }
    let mut i: usize = 0;
    assert(a@.skip(0) =~= a@);
    assert(b@.skip(0) =~= b@);
    while i < a.len() && i < b.len()
        invariant
            i <= a.len(),
            i <= b.len(),
            a@.take(i as int) == b@.take(i as int),
            seq_lt(a@, b@) == seq_lt(a@.skip(i as int), b@.skip(i as int)),
            seq_lt(b@, a@) == seq_lt(b@.skip(i as int), a@.skip(i as int)),
        decreases a.len() - i,
    {
        if a[i] != b[i] {
            let ghost sa = a@.skip(i as int);
            let ghost sb = b@.skip(i as int);
            assert(sa[0] == a@[i as int]);
            assert(sb[0] == b@[i as int]);
            if a[i] < b[i] {
                return Order::Less;
            } else {
                return Order::Greater;
            }
        }
        assert(a@.skip(i as int).drop_first() =~= a@.skip(i + 1));
        assert(b@.skip(i as int).drop_first() =~= b@.skip(i + 1));
        assert(a@.take(i + 1) =~= a@.take(i as int).push(a@[i as int]));
        assert(b@.take(i + 1) =~= b@.take(i as int).push(b@[i as int]));
        i = i + 1;
    }
    let ghost sa = a@.skip(i as int);
    let ghost sb = b@.skip(i as int);
    if i < b.len() {
        assert(sa.len() == 0 && sb.len() > 0);
        Order::Less
    } else if i < a.len() {
        assert(sb.len() == 0 && sa.len() > 0);
        Order::Greater
    } else {
        assert(a@ =~= a@.take(i as int));
        assert(b@ =~= b@.take(i as int));
        Order::Equal
    }
}

/// Compare two texts in `str` order.
pub fn compare_text(a: &str, b: &str) -> (r: Order)
    ensures
        order_holds(r, a@, b@),
        (r == Order::Less) <==> seq_lt(a@, b@),
        (r == Order::Equal) <==> a@ == b@,
        (r == Order::Greater) <==> seq_lt(b@, a@),
{
    let ca = chars_of(a);
    let cb = chars_of(b);
    compare_char_vecs(&ca, &cb)
}

/// `true` when two texts hold the same characters.
pub fn same_text(a: &str, b: &str) -> (r: bool)
    ensures
        r == (a@ == b@),
{
    match compare_text(a, b) {
        Order::Equal => true,
        Order::Less => {
            proof {
                lemma_seq_lt_irreflexive(a@);
            }
            false
        },
        Order::Greater => {
            proof {
                lemma_seq_lt_irreflexive(a@);
            }
            false
        },
    }
}

/// `true` when `s` holds a codec separator: a newline or a tab.
pub open spec fn has_separator(s: Seq<char>) -> bool {
    exists|i: int| 0 <= i < s.len() && (s[i] == '\n' || s[i] == '\t')
}

/// `true` when `s` holds a newline or a tab.
pub fn contains_separator(s: &str) -> (r: bool)
    ensures
        r == has_separator(s@),
{
    for c in it: s.chars()
        invariant
            it.seq() == s@,
            forall|j: int| 0 <= j < it.index() ==> s@[j] != '\n' && s@[j] != '\t',
    {
        if c == '\n' || c == '\t' {
            return true;
        }
    }
    false
}

/// The number of characters in `s`.
pub fn char_count(s: &str) -> (n: usize)
    ensures
        n == s@.len(),
{
    s.unicode_len()
}

/// Collects characters into a `String` (`String: FromIterator<&char>`); the
/// contract states that the string holds exactly those characters.
#[verifier::external_body]
pub(crate) fn string_from_chars(v: &Vec<char>) -> (r: String)
    ensures
        r@ == v@,
{
    v.iter().collect()
}

/// A fresh `String` holding `s`.
pub fn owned(s: &str) -> (r: String)
    ensures
        r@ == s@,
{
    s.to_owned()
}

} // verus!
