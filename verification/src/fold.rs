//! Match-folding: lowercase, strip diacritics (canonical decomposition, then
//! drop combining marks), drop apostrophes. Pure and deterministic, so the same
//! base input matches the same dictionary word everywhere.
use crate::text::{chars_of, string_from_chars};
use unicode_normalization::UnicodeNormalization;
use vstd::prelude::*;

verus! {

/// The canonical decomposition (NFD) of a text, as `unicode-normalization`
/// computes it.
pub uninterp spec fn nfd_of(s: Seq<char>) -> Seq<char>;

/// The canonical decomposition (NFD) of one character.
pub uninterp spec fn char_nfd_of(c: char) -> Seq<char>;

/// Whether a character is a combining mark (General_Category M*), as
/// `unicode-normalization` tabulates it.
pub uninterp spec fn combining_mark(c: char) -> bool;

/// The lowercase mapping of a character, as the standard library computes it.
pub uninterp spec fn lowercase_of(c: char) -> Seq<char>;

/// Calls `UnicodeNormalization::nfd` on a `&str` and collects the characters.
/// The contract names the result; it says nothing of what the decomposition is.
#[verifier::external_body]
fn nfd_chars(s: &str) -> (r: Vec<char>)
    ensures
        r@ == nfd_of(s@),
{
    s.nfd().collect()
}

/// Calls `UnicodeNormalization::nfd` on a `char` and collects the characters.
#[verifier::external_body]
fn char_nfd_chars(c: char) -> (r: Vec<char>)
    ensures
        r@ == char_nfd_of(c),
{
    c.nfd().collect()
}

/// Calls `unicode_normalization::char::is_combining_mark`.
#[verifier::external_body]
fn is_combining_mark(c: char) -> (r: bool)
    ensures
        r == combining_mark(c),
{
    unicode_normalization::char::is_combining_mark(c)
}

/// Calls `char::to_lowercase` and collects the characters.
#[verifier::external_body]
fn lowercase_chars(c: char) -> (r: Vec<char>)
    ensures
        r@ == lowercase_of(c),
{
    c.to_lowercase().collect()
}

/// Every character is an ASCII lowercase letter.
pub open spec fn all_ascii_lowercase(s: Seq<char>) -> bool {
    forall|i: int| 0 <= i < s.len() ==> 'a' <= #[trigger] s[i] <= 'z'
}

/// A decomposed character kept by folding: no combining mark, no apostrophe.
pub open spec fn kept(c: char) -> bool {
    !combining_mark(c) && c != '\'' && c != '\u{2019}'
}

/// Drop marks and apostrophes from `d`, lowercasing what remains.
pub open spec fn fold_chars(d: Seq<char>) -> Seq<char>
    decreases d.len(),
{
    if d.len() == 0 {
        Seq::empty()
    } else if kept(d.last()) {
        fold_chars(d.drop_last()) + lowercase_of(d.last())
    } else {
        fold_chars(d.drop_last())
    }
}

/// `s` as a bare match key: unchanged when already ASCII lowercase letters,
/// otherwise decomposed, stripped of combining marks and apostrophes, and
/// lowercased.
pub open spec fn fold_spec(s: Seq<char>) -> Seq<char> {
    if all_ascii_lowercase(s) {
        s
    } else {
        fold_chars(nfd_of(s))
    }
}

/// ASCII lowercasing of one character.
pub open spec fn ascii_lower(c: char) -> char {
    if 'A' <= c <= 'Z' {
        ((c as u32) + 32) as char
    } else {
        c
    }
}

/// The first non-mark character of `d`, if any.
pub open spec fn first_base(d: Seq<char>) -> Option<char>
    decreases d.len(),
{
    if d.len() == 0 {
        None
    } else if !combining_mark(d[0]) {
        Some(d[0])
    } else {
        first_base(d.drop_first())
    }
}

/// One character folded to its base lowercase letter. Apostrophes are kept.
pub open spec fn fold_char_spec(c: char) -> char {
    if (c as u32) < 128 {
        ascii_lower(c)
    } else {
        let b = match first_base(char_nfd_of(c)) {
            Some(b) => b,
            None => c,
        };
        let l = lowercase_of(b);
        if l.len() > 0 {
            l[0]
        } else {
            b
        }
    }
}

/// `s` as a bare match key: lowercased, combining diacritics removed,
/// apostrophes dropped.
pub fn fold(s: &str) -> (r: String)
    ensures
        r@ == fold_spec(s@),
{
    let cs = chars_of(s);
    let mut plain = true;
    for i in 0..cs.len()
        invariant
            cs@ == s@,
            plain == forall|j: int| 0 <= j < i ==> 'a' <= #[trigger] cs@[j] <= 'z',
    {
        if !('a' <= cs[i] && cs[i] <= 'z') {
            plain = false;
        }
    }
    if plain {
        return s.to_owned();
    }
    let d = nfd_chars(s);
    let mut out: Vec<char> = Vec::new();
    for i in 0..d.len()
        invariant
            out@ == fold_chars(d@.take(i as int)),
    {
        let c = d[i];
        assert(d@.take(i + 1).drop_last() =~= d@.take(i as int));
        if !is_combining_mark(c) && c != '\'' && c != '\u{2019}' {
            let low = lowercase_chars(c);
            for k in 0..low.len()
                invariant
                    out@ == fold_chars(d@.take(i as int)) + low@.take(k as int),
            {
                out.push(low[k]);
                assert(low@.take(k + 1) =~= low@.take(k as int).push(low@[k as int]));
            }
            assert(low@.take(low@.len() as int) =~= low@);
        }
    }
    assert(d@.take(d@.len() as int) =~= d@);
    string_from_chars(&out)
}

/// ASCII lowercasing of one character.
pub fn to_ascii_lower(c: char) -> (r: char)
    ensures
        r == ascii_lower(c),
{
    if 'A' <= c && c <= 'Z' {
        let b = (c as u8) + 32;
        b as char
    } else {
        c
    }
}

/// One character folded to its base lowercase letter (É->e, ç->c). Unlike
/// [`fold`], apostrophes are kept.
pub fn fold_char(c: char) -> (r: char)
    ensures
        r == fold_char_spec(c),
{
    if (c as u32) < 128 {
        return to_ascii_lower(c);
    }
    let d = char_nfd_chars(c);
    let mut base = c;
    let mut i: usize = 0;
    assert(d@.skip(0) =~= d@);
    while i < d.len() && is_combining_mark(d[i])
        invariant
            i <= d@.len(),
            first_base(char_nfd_of(c)) == first_base(d@.skip(i as int)),
        decreases d.len() - i,
    {
        assert(d@.skip(i as int).drop_first() =~= d@.skip(i + 1));
        i = i + 1;
    }
    if i < d.len() {
        base = d[i];
    }
    let low = lowercase_chars(base);
    if low.len() > 0 {
        low[0]
    } else {
        base
    }
}

} // verus!
