//! The capitalization signal behind learning proper nouns: a word typed in
//! title case (first letter upper, the rest lower) mid-sentence.
use crate::text::{chars_of, same_text, string_from_chars};
use vstd::prelude::*;

verus! {

/// Whether a character has the Unicode `Uppercase` property, as the standard
/// library answers it.
pub uninterp spec fn uppercase_char(c: char) -> bool;

/// The lowercase form of a text, as the standard library's
/// `str::to_lowercase` computes it.
pub uninterp spec fn lowercase_text(s: Seq<char>) -> Seq<char>;

/// `char::is_uppercase`.
#[verifier::external_body]
fn is_upper(c: char) -> (r: bool)
    ensures
        r == uppercase_char(c),
{
    c.is_uppercase()
}

/// `str::to_lowercase`.
#[verifier::external_body]
pub(crate) fn text_to_lowercase(s: &str) -> (r: String)
    ensures
        r@ == lowercase_text(s@),
{
    s.to_lowercase()
}

/// Title case with at least two characters: an uppercase first character and
/// a rest that lowercasing leaves unchanged.
pub open spec fn title_case(w: Seq<char>) -> bool {
    &&& w.len() >= 2
    &&& uppercase_char(w[0])
    &&& lowercase_text(w.drop_first()) == w.drop_first()
}

/// `true` if `word` is title case with at least two characters: first letter
/// upper, the rest lower. A lone `"I"` is not a proper-noun signal.
pub fn is_title_case(word: &str) -> (r: bool)
    ensures
        r == title_case(word@),
{
    let cs = chars_of(word);
    if cs.len() == 0 {
        return false;
    }
    if !is_upper(cs[0]) {
        return false;
    }
    let mut rest: Vec<char> = Vec::new();
    for i in 1..cs.len()
        invariant
            cs@ == word@,
            cs@.len() >= 1,
            rest@ == cs@.subrange(1, i as int),
    {
        rest.push(cs[i]);
        proof {
            assert(cs@.subrange(1, i + 1) =~= cs@.subrange(1, i as int).push(cs@[i as int]));
        }
    }
    proof {
        assert(rest@ =~= word@.drop_first());
    }
    if rest.len() == 0 {
        return false;
    }
    let text = string_from_chars(&rest);
    let lower = text_to_lowercase(text.as_str());
    same_text(lower.as_str(), text.as_str())
}

} // verus!
