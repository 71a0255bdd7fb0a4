//! Grapheme- and word-granular cursor movement over byte offsets.
//!
//! Every function takes a `text` and a byte offset `idx` and returns the byte
//! offset the caret occupies after the movement. Movement is measured in
//! extended grapheme clusters and Unicode words (`unicode-segmentation`), never
//! in bytes or `char`s. Movement saturates at the ends of the buffer; offsets
//! past the end or inside a multi-byte character are reported as errors.
use crate::kernel::EditError;
use unicode_segmentation::UnicodeSegmentation;
use vstd::prelude::*;
use vstd::string::StringSliceAdditionalSpecFns;
use vstd::utf8::{
    encode_scalar, encode_utf8, encode_utf8_valid_utf8, is_char_boundary, is_char_boundary_start_end_of_seq,
};

verus! {

/// The start offsets of the extended grapheme clusters of a text, as
/// `unicode-segmentation` segments it.
pub uninterp spec fn grapheme_starts_of(text: Seq<char>) -> Seq<usize>;

/// The Unicode words of a text with their start offsets, as
/// `unicode-segmentation` finds them.
pub uninterp spec fn word_indices_of(text: Seq<char>) -> Seq<(usize, Seq<char>)>;

/// The UTF-8 byte length of a text.
pub open spec fn byte_len(text: Seq<char>) -> int {
    encode_utf8(text).len() as int
}

/// `idx` is a character boundary of `text` (its start, its end, or the first
/// byte of a character).
pub open spec fn on_boundary(text: Seq<char>, idx: int) -> bool {
    is_char_boundary(encode_utf8(text), idx)
}

/// Offsets in strictly increasing order.
pub open spec fn increasing(b: Seq<usize>) -> bool {
    forall|i: int, j: int| 0 <= i < j < b.len() ==> b[i] < b[j]
}

/// Walk `b` from the front while its offsets are below `idx`, remembering the
/// last one passed; `fallback` when none is.
pub open spec fn prev_boundary_spec(b: Seq<usize>, idx: usize, fallback: usize) -> usize
    decreases b.len(),
{
    if b.len() == 0 || b[0] >= idx {
        fallback
    } else {
        prev_boundary_spec(b.drop_first(), idx, b[0])
    }
}

/// The first offset of `b` past `idx`, or `end` when there is none.
pub open spec fn next_boundary_spec(b: Seq<usize>, idx: usize, end: usize) -> usize
    decreases b.len(),
{
    if b.len() == 0 {
        end
    } else if b[0] > idx {
        b[0]
    } else {
        next_boundary_spec(b.drop_first(), idx, end)
    }
}

/// What the segmentation documents of a text's grapheme starts: strictly
/// increasing, starting at 0 exactly when the text is non-empty, each before
/// the end and on a character boundary; and the text's byte length fits a
/// `usize`.
pub open spec fn grapheme_facts(text: Seq<char>) -> bool {
    let b = grapheme_starts_of(text);
    &&& byte_len(text) <= usize::MAX
    &&& increasing(b)
    &&& (b.len() > 0 <==> text.len() > 0)
    &&& (b.len() > 0 ==> b[0] == 0)
    &&& forall|i: int| 0 <= i < b.len() ==> b[i] < byte_len(text) && on_boundary(text, #[trigger] b[i] as int)
}

/// The word spans' starts and ends both strictly increase, and the text's
/// byte length fits a `usize`.
pub open spec fn word_facts(text: Seq<char>) -> bool {
    &&& byte_len(text) <= usize::MAX
    &&& increasing(word_starts(word_indices_of(text)))
    &&& increasing(word_ends(word_indices_of(text)))
}

/// The error a caret position gets, if any: past the end first, then inside
/// a character.
pub open spec fn position_error(text: Seq<char>, idx: usize) -> Option<EditError> {
    if idx > byte_len(text) {
        Some(EditError::OutOfBounds)
    } else if !on_boundary(text, idx as int) {
        Some(EditError::NotCharBoundary)
    } else {
        None
    }
}

/// The byte offsets of the extended grapheme clusters of `text`
/// (`UnicodeSegmentation::grapheme_indices(text, true)`, offsets only). The
/// contract names the segmentation and states what the crate documents of
/// it: the clusters cover the text in order, so the offsets increase, start
/// at 0, lie before the end and on character boundaries.
#[verifier::external_body]
fn grapheme_starts(text: &str) -> (r: Vec<usize>)
    ensures
        r@ == grapheme_starts_of(text@),
        increasing(r@),
        r@.len() > 0 <==> text@.len() > 0,
        r@.len() > 0 ==> r@[0] == 0,
        forall|i: int|
            0 <= i < r@.len() ==> r@[i] < byte_len(text@) && on_boundary(
                text@,
                #[trigger] r@[i] as int,
            ),
{
    text.grapheme_indices(true).map(|(start, _)| start).collect()
}

/// The Unicode words of `text` with their byte offsets
/// (`UnicodeSegmentation::unicode_word_indices`). The contract names the
/// segmentation and states what the crate documents of it: the words are
/// non-empty substrings of the text, in order and not overlapping, starting
/// on character boundaries.
#[verifier::external_body]
fn word_indices<'a>(text: &'a str) -> (r: Vec<(usize, &'a str)>)
    ensures
        r@.map_values(|p: (usize, &str)| (p.0, p.1@)) == word_indices_of(text@),
        forall|i: int|
            0 <= i < r@.len() ==> {
                let p = #[trigger] r@[i];
                &&& p.1@.len() > 0
                &&& p.0 + byte_len(p.1@) <= byte_len(text@)
                &&& on_boundary(text@, p.0 as int)
            },
        forall|i: int, j: int|
            0 <= i < j < r@.len() ==> (#[trigger] r@[i]).0 + byte_len(r@[i].1@) <= (
            #[trigger] r@[j]).0,
{
    text.unicode_word_indices().collect()
}

/// The last of the leading offsets of `bounds` below `idx` (the offsets are
/// walked from the front while below `idx`), or 0 when the first is not.
pub fn prev_boundary(bounds: &[usize], idx: usize) -> (r: usize)
    ensures
        r == prev_boundary_spec(bounds@, idx, 0),
{
    let mut last: usize = 0;
    let mut i: usize = 0;
    proof {
        assert(bounds@.subrange(0, bounds@.len() as int) =~= bounds@);
    }
    while i < bounds.len()
        invariant
            i <= bounds@.len(),
            prev_boundary_spec(bounds@, idx, 0) == prev_boundary_spec(
                bounds@.subrange(i as int, bounds@.len() as int),
                idx,
                last,
            ),
        decreases bounds@.len() - i,
    {
        let ghost rest = bounds@.subrange(i as int, bounds@.len() as int);
        proof {
            assert(rest.drop_first() =~= bounds@.subrange(i + 1, bounds@.len() as int));
        }
        if bounds[i] >= idx {
            return last;
        }
        last = bounds[i];
        i = i + 1;
    }
    proof {
        assert(bounds@.subrange(i as int, bounds@.len() as int).len() == 0);
    }
    last
}

/// The first offset of `bounds` past `idx`, or `end` when there is none.
pub fn next_boundary(bounds: &[usize], idx: usize, end: usize) -> (r: usize)
    ensures
        r == next_boundary_spec(bounds@, idx, end),
{
    let mut i: usize = 0;
    proof {
        assert(bounds@.subrange(0, bounds@.len() as int) =~= bounds@);
    }
    while i < bounds.len()
        invariant
            i <= bounds@.len(),
            next_boundary_spec(bounds@, idx, end) == next_boundary_spec(
                bounds@.subrange(i as int, bounds@.len() as int),
                idx,
                end,
            ),
        decreases bounds@.len() - i,
    {
        let ghost rest = bounds@.subrange(i as int, bounds@.len() as int);
        proof {
            assert(rest.drop_first() =~= bounds@.subrange(i + 1, bounds@.len() as int));
        }
        if bounds[i] > idx {
            return bounds[i];
        }
        i = i + 1;
    }
    proof {
        assert(bounds@.subrange(i as int, bounds@.len() as int).len() == 0);
    }
    end
}

/// What the walk back yields: the fallback, or an offset of `b` below `idx`.
proof fn lemma_prev_boundary(b: Seq<usize>, idx: usize, fallback: usize)
    ensures
        prev_boundary_spec(b, idx, fallback) == fallback || exists|i: int|
            0 <= i < b.len() && #[trigger] b[i] == prev_boundary_spec(b, idx, fallback) && b[i]
                < idx,
    decreases b.len(),
{
    if b.len() > 0 && b[0] < idx {
        lemma_prev_boundary(b.drop_first(), idx, b[0]);
        let r = prev_boundary_spec(b, idx, fallback);
        if r != b[0] {
            let i = choose|i: int|
                0 <= i < b.drop_first().len() && #[trigger] b.drop_first()[i] == r && b.drop_first()[i]
                    < idx;
            assert(b[i + 1] == r);
        } else {
            assert(b[0] == r);
        }
    }
}

/// What the walk forward yields: `end`, or an offset of `b` past `idx`.
proof fn lemma_next_boundary(b: Seq<usize>, idx: usize, end: usize)
    ensures
        next_boundary_spec(b, idx, end) == end || exists|i: int|
            0 <= i < b.len() && #[trigger] b[i] == next_boundary_spec(b, idx, end) && b[i] > idx,
    decreases b.len(),
{
    if b.len() > 0 && b[0] <= idx {
        lemma_next_boundary(b.drop_first(), idx, end);
        let r = next_boundary_spec(b, idx, end);
        if r != end {
            let i = choose|i: int|
                0 <= i < b.drop_first().len() && #[trigger] b.drop_first()[i] == r && b.drop_first()[i]
                    > idx;
            assert(b[i + 1] == r);
        }
    } else if b.len() > 0 {
        assert(b[0] == next_boundary_spec(b, idx, end));
    }
}

/// The UTF-8 byte length of `text`.
fn byte_length(text: &str) -> (n: usize)
    ensures
        n == byte_len(text@),
{
    text.as_bytes().len()
}

/// Check that `idx` is a valid caret position in `text`.
pub fn validate(text: &str, idx: usize) -> (r: Result<(), EditError>)
    ensures
        match position_error(text@, idx) {
            Some(e) => r == Err::<(), EditError>(e),
            None => r is Ok,
        },
{
    if idx > byte_length(text) {
        Err(EditError::OutOfBounds)
    } else if !text.is_char_boundary(idx) {
        Err(EditError::NotCharBoundary)
    } else {
        Ok(())
    }
}

/// The start and end of a text are character boundaries.
proof fn lemma_ends_are_boundaries(text: Seq<char>)
    ensures
        on_boundary(text, 0),
        on_boundary(text, byte_len(text)),
{
    encode_utf8_valid_utf8(text);
    is_char_boundary_start_end_of_seq(encode_utf8(text));
}

/// Move the caret one grapheme cluster to the left, saturating at 0.
pub fn move_left(text: &str, idx: usize) -> (r: Result<usize, EditError>)
    ensures
        match position_error(text@, idx) {
            Some(e) => r == Err::<usize, EditError>(e),
            None => r == Ok::<usize, EditError>(prev_boundary_spec(grapheme_starts_of(text@), idx, 0)),
        },
        r matches Ok(p) ==> p <= idx && (idx > 0 ==> p < idx) && on_boundary(text@, p as int),
        position_error(text@, idx) is None ==> grapheme_facts(text@),
        r matches Ok(p) ==> (p == 0 || grapheme_starts_of(text@).contains(p)) && forall|i: int|
            0 <= i < grapheme_starts_of(text@).len() && #[trigger] grapheme_starts_of(text@)[i] < idx
                ==> grapheme_starts_of(text@)[i] <= p,
{
    validate(text, idx)?;
    let starts = grapheme_starts(text);
    let n = byte_length(text);
    assert(n == byte_len(text@));
    let p = prev_boundary(starts.as_slice(), idx);
    proof {
        lemma_prev_boundary(starts@, idx, 0);
        lemma_prev_greatest(starts@, idx, 0);
        lemma_ends_are_boundaries(text@);
    }
    Ok(p)
}

/// Move the caret one grapheme cluster to the right, saturating at the end.
pub fn move_right(text: &str, idx: usize) -> (r: Result<usize, EditError>)
    ensures
        match position_error(text@, idx) {
            Some(e) => r == Err::<usize, EditError>(e),
            None => r == Ok::<usize, EditError>(
                next_boundary_spec(grapheme_starts_of(text@), idx, byte_len(text@) as usize),
            ),
        },
        r matches Ok(p) ==> idx <= p <= byte_len(text@) && (idx < byte_len(text@) ==> idx < p)
            && on_boundary(text@, p as int),
        position_error(text@, idx) is None ==> grapheme_facts(text@),
        r matches Ok(p) ==> (p == byte_len(text@) || grapheme_starts_of(text@).contains(p)) && forall|i: int|
            0 <= i < grapheme_starts_of(text@).len() && #[trigger] grapheme_starts_of(text@)[i] > idx
                ==> p <= grapheme_starts_of(text@)[i],
{
    validate(text, idx)?;
    let starts = grapheme_starts(text);
    let n = byte_length(text);
    let p = next_boundary(starts.as_slice(), idx, n);
    proof {
        lemma_next_boundary(starts@, idx, n);
        lemma_next_least(starts@, idx, n);
        lemma_ends_are_boundaries(text@);
    }
    Ok(p)
}

/// With increasing offsets, the walk back lands at or past every offset
/// below `idx`.
proof fn lemma_prev_greatest(b: Seq<usize>, idx: usize, fallback: usize)
    requires
        increasing(b),
    ensures
        forall|i: int| 0 <= i < b.len() && #[trigger] b[i] < idx ==> b[i] <= prev_boundary_spec(b, idx, fallback),
    decreases b.len(),
{
    if b.len() > 0 && b[0] < idx {
        let t = b.drop_first();
        lemma_prev_greatest(t, idx, b[0]);
        lemma_prev_boundary(t, idx, b[0]);
        let r = prev_boundary_spec(b, idx, fallback);
        assert(b[0] <= r) by {
            if r != b[0] {
                let k = choose|k: int| 0 <= k < t.len() && #[trigger] t[k] == r && t[k] < idx;
                assert(t[k] == b[k + 1]);
            }
        }
        assert forall|i: int| 0 <= i < b.len() && #[trigger] b[i] < idx implies b[i] <= r by {
            if i > 0 {
                assert(b[i] == t[i - 1]);
            }
        }
    }
}

/// With increasing offsets, the walk forward stops at or before every offset
/// past `idx`.
proof fn lemma_next_least(b: Seq<usize>, idx: usize, end: usize)
    requires
        increasing(b),
    ensures
        forall|i: int| 0 <= i < b.len() && #[trigger] b[i] > idx ==> next_boundary_spec(b, idx, end) <= b[i],
    decreases b.len(),
{
    if b.len() > 0 && b[0] <= idx {
        let t = b.drop_first();
        lemma_next_least(t, idx, end);
        assert forall|i: int| 0 <= i < b.len() && #[trigger] b[i] > idx implies next_boundary_spec(b, idx, end)
            <= b[i] by {
            assert(i > 0);
            assert(b[i] == t[i - 1]);
        }
    }
}

/// Stepping one grapheme cluster right from a cluster start and then one
/// left returns the caret where it was: both positions are valid carets, and
/// the step back from the step forward is the start itself.
pub proof fn grapheme_step_round_trip(text: Seq<char>, idx: usize)
    requires
        grapheme_facts(text),
        grapheme_starts_of(text).contains(idx),
    ensures
        position_error(text, idx) is None,
        position_error(
            text,
            next_boundary_spec(grapheme_starts_of(text), idx, byte_len(text) as usize),
        ) is None,
        prev_boundary_spec(
            grapheme_starts_of(text),
            next_boundary_spec(grapheme_starts_of(text), idx, byte_len(text) as usize),
            0,
        ) == idx,
{
    let b = grapheme_starts_of(text);
    let n = byte_len(text) as usize;
    let k = choose|k: int| 0 <= k < b.len() && b[k] == idx;
    assert(b[k] == idx);
    lemma_ends_are_boundaries(text);
    lemma_next_boundary(b, idx, n);
    lemma_next_least(b, idx, n);
    let p = next_boundary_spec(b, idx, n);
    // p is the next start, or the end when idx starts the last cluster.
    assert(p > idx && p <= n) by {
        if p != n {
            let j = choose|j: int| 0 <= j < b.len() && #[trigger] b[j] == p && b[j] > idx;
            assert(b[j] < byte_len(text));
        }
    }
    assert(on_boundary(text, p as int)) by {
        if p != n {
            let j = choose|j: int| 0 <= j < b.len() && #[trigger] b[j] == p && b[j] > idx;
        }
    }
    // No start lies strictly between idx and p.
    assert forall|j: int| 0 <= j < b.len() && #[trigger] b[j] < p implies b[j] <= idx by {
        if b[j] > idx {
            assert(p <= b[j]);
        }
    }
    lemma_prev_boundary(b, p, 0);
    lemma_prev_greatest(b, p, 0);
    let q = prev_boundary_spec(b, p, 0);
    assert(idx <= q);
    if q != 0 {
        let j = choose|j: int| 0 <= j < b.len() && #[trigger] b[j] == q && b[j] < p;
        assert(b[j] <= idx);
    }
}

/// The start offsets of the word spans.
pub open spec fn word_starts(w: Seq<(usize, Seq<char>)>) -> Seq<usize> {
    w.map_values(|p: (usize, Seq<char>)| p.0)
}

/// The end offsets of the word spans.
pub open spec fn word_ends(w: Seq<(usize, Seq<char>)>) -> Seq<usize> {
    w.map_values(|p: (usize, Seq<char>)| (p.0 + byte_len(p.1)) as usize)
}

/// A non-empty text takes at least one byte.
proof fn lemma_byte_len_positive(t: Seq<char>)
    requires
        t.len() > 0,
    ensures
        byte_len(t) > 0,
{
    assert(encode_utf8(t) == encode_scalar(t[0] as u32) + encode_utf8(t.drop_first()));
}

/// Non-empty, ordered, non-overlapping word spans have strictly increasing
/// starts and strictly increasing ends.
proof fn lemma_word_spans(text: Seq<char>, w: Seq<(usize, Seq<char>)>, n: usize)
    requires
        w == word_indices_of(text),
        n == byte_len(text),
        forall|i: int|
            0 <= i < w.len() ==> {
                let p = #[trigger] w[i];
                &&& p.1.len() > 0
                &&& p.0 + byte_len(p.1) <= byte_len(text)
            },
        forall|i: int, j: int| 0 <= i < j < w.len() ==> (#[trigger] w[i]).0 + byte_len(w[i].1) <= (#[trigger] w[j]).0,
    ensures
        word_facts(text),
{
    let s = word_starts(w);
    let e = word_ends(w);
    assert forall|i: int, j: int| 0 <= i < j < s.len() implies s[i] < s[j] by {
        lemma_byte_len_positive(w[i].1);
        assert(w[i].0 + byte_len(w[i].1) <= w[j].0);
    }
    assert forall|i: int, j: int| 0 <= i < j < e.len() implies e[i] < e[j] by {
        lemma_byte_len_positive(w[j].1);
        assert(w[i].0 + byte_len(w[i].1) <= w[j].0);
        assert(w[j].0 + byte_len(w[j].1) <= byte_len(text));
        assert(w[i].0 + byte_len(w[i].1) <= byte_len(text));
    }
}

/// Move the caret to the start of the previous word, saturating at 0. From
/// inside a word the caret lands on that word's start; from a word's start,
/// on the previous word's start.
pub fn word_left(text: &str, idx: usize) -> (r: Result<usize, EditError>)
    ensures
        match position_error(text@, idx) {
            Some(e) => r == Err::<usize, EditError>(e),
            None => r == Ok::<usize, EditError>(
                prev_boundary_spec(word_starts(word_indices_of(text@)), idx, 0),
            ),
        },
        r matches Ok(p) ==> p <= idx && (idx > 0 ==> p < idx) && on_boundary(text@, p as int),
        position_error(text@, idx) is None ==> word_facts(text@),
        r matches Ok(p) ==> (p == 0 || word_starts(word_indices_of(text@)).contains(p)) && forall|i: int|
            0 <= i < word_starts(word_indices_of(text@)).len() && #[trigger] word_starts(word_indices_of(text@))[i]
                < idx ==> word_starts(word_indices_of(text@))[i] <= p,
{
    validate(text, idx)?;
    let n = byte_length(text);
    let words = word_indices(text);
    proof {
        lemma_word_spans(text@, words@.map_values(|q: (usize, &str)| (q.0, q.1@)), n);
    }
    let mut starts: Vec<usize> = Vec::new();
    for i in 0..words.len()
        invariant
            starts@.len() == i,
            forall|j: int| 0 <= j < i ==> #[trigger] starts@[j] == words@[j].0,
    {
        starts.push(words[i].0);
    }
    let p = prev_boundary(starts.as_slice(), idx);
    proof {
        let ghost wv = words@.map_values(|q: (usize, &str)| (q.0, q.1@));
        assert(starts@ =~= word_starts(wv));
        lemma_prev_boundary(starts@, idx, 0);
        lemma_prev_greatest(starts@, idx, 0);
        lemma_ends_are_boundaries(text@);
        if p != 0 {
            let i = choose|i: int| 0 <= i < starts@.len() && #[trigger] starts@[i] == p && starts@[i] < idx;
            assert(on_boundary(text@, words@[i].0 as int));
        }
    }
    Ok(p)
}

/// Move the caret to the end of the next word, saturating at the end. From
/// inside a word the caret lands on that word's end; from a word's end, on the
/// following word's end.
pub fn word_right(text: &str, idx: usize) -> (r: Result<usize, EditError>)
    ensures
        match position_error(text@, idx) {
            Some(e) => r == Err::<usize, EditError>(e),
            None => r == Ok::<usize, EditError>(
                next_boundary_spec(word_ends(word_indices_of(text@)), idx, byte_len(text@) as usize),
            ),
        },
        r matches Ok(p) ==> idx <= p <= byte_len(text@) && (idx < byte_len(text@) ==> idx < p),
        position_error(text@, idx) is None ==> word_facts(text@),
        r matches Ok(p) ==> (p == byte_len(text@) || word_ends(word_indices_of(text@)).contains(p)) && forall|i: int|
            0 <= i < word_ends(word_indices_of(text@)).len() && #[trigger] word_ends(word_indices_of(text@))[i]
                > idx ==> p <= word_ends(word_indices_of(text@))[i],
{
    validate(text, idx)?;
    let n = byte_length(text);
    let words = word_indices(text);
    proof {
        lemma_word_spans(text@, words@.map_values(|q: (usize, &str)| (q.0, q.1@)), n);
    }
    let mut ends: Vec<usize> = Vec::new();
    for i in 0..words.len()
        invariant
            ends@.len() == i,
            n == byte_len(text@),
            forall|k: int|
                0 <= k < words@.len() ==> {
                    let p = #[trigger] words@[k];
                    &&& p.1@.len() > 0
                    &&& p.0 + byte_len(p.1@) <= byte_len(text@)
                    &&& on_boundary(text@, p.0 as int)
                },
            forall|j: int|
                0 <= j < i ==> #[trigger] ends@[j] == words@[j].0 + byte_len(words@[j].1@),
    {
        let (start, w) = words[i];
        proof {
            assert(w@ == words@[i as int].1@);
        }
        ends.push(start + byte_length(w));
    }
    let p = next_boundary(ends.as_slice(), idx, n);
    proof {
        let ghost wv = words@.map_values(|q: (usize, &str)| (q.0, q.1@));
        assert(ends@ =~= word_ends(wv));
        lemma_next_boundary(ends@, idx, n);
        lemma_next_least(ends@, idx, n);
        if p != n {
            let i = choose|i: int| 0 <= i < ends@.len() && #[trigger] ends@[i] == p && ends@[i] > idx;
            assert(ends@[i] == words@[i].0 + byte_len(words@[i].1@));
        }
    }
    Ok(p)
}

} // verus!
