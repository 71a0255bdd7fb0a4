//! Byte encoding of a learned vocabulary: one newline-joined UTF-8 blob, one
//! line per learned entry, `<index>\t<freq>\t<word>` (e.g. `"2\t7\tcat"`).
//!
//! Lines come in ascending word order, so equal vocabularies encode to
//! identical bytes; an empty vocabulary encodes to zero bytes and zero bytes
//! decode to no entries. Decoding is total: any malformed blob yields `None`.
use crate::context::{is_storable, storable};
use crate::text::{chars_of, lemma_seq_lt_asymmetric, lemma_seq_lt_irreflexive, seq_lt, string_from_chars};
use crate::vocab::Vocab;
use vstd::prelude::*;
use vstd::utf8::{decode_utf8, encode_utf8, valid_utf8};

verus! {

broadcast use {vstd::utf8::encode_utf8_valid_utf8, vstd::utf8::encode_utf8_decode_utf8};

/// The field separator inside a line.
pub const SEP: char = '\t';

/// The line separator.
pub const NEWLINE: char = '\n';

/// The decimal digit character for `d < 10`.
pub open spec fn digit_char(d: nat) -> char {
    (48 + d) as char
}

/// The decimal text of `n`: no sign, no leading zeros.
pub open spec fn decimal(n: nat) -> Seq<char>
    decreases n,
{
    if n < 10 {
        seq![digit_char(n)]
    } else {
        decimal(n / 10).push(digit_char(n % 10))
    }
}

/// An ASCII decimal digit.
pub open spec fn is_digit(c: char) -> bool {
    '0' <= c <= '9'
}

/// Every character is a decimal digit.
pub open spec fn all_digits(s: Seq<char>) -> bool {
    forall|i: int| 0 <= i < s.len() ==> is_digit(#[trigger] s[i])
}

/// The value of a run of decimal digits.
pub open spec fn digits_value(s: Seq<char>) -> nat
    decreases s.len(),
{
    if s.len() == 0 {
        0
    } else {
        digits_value(s.drop_last()) * 10 + ((s.last() as int) - 48) as nat
    }
}

/// The digits of an unsigned number's text: past an optional leading `+`.
pub open spec fn unsigned_body(s: Seq<char>) -> Seq<char> {
    if s.len() > 0 && s[0] == '+' {
        s.drop_first()
    } else {
        s
    }
}

/// How the standard library reads `s` as an unsigned integer no larger than
/// `max`: an optional `+`, then one or more decimal digits, whose value must
/// not exceed `max`.
pub open spec fn parsed_unsigned(s: Seq<char>, max: nat) -> Option<nat> {
    let b = unsigned_body(s);
    if b.len() > 0 && all_digits(b) && digits_value(b) <= max {
        Some(digits_value(b))
    } else {
        None
    }
}

/// `s` split at every `sep`: `k` separators give `k + 1` pieces, empty
/// pieces included.
pub open spec fn split_on(s: Seq<char>, sep: char) -> Seq<Seq<char>>
    decreases s.len(),
{
    if s.len() == 0 {
        seq![Seq::empty()]
    } else {
        let rest = split_on(s.drop_last(), sep);
        if s.last() == sep {
            rest.push(Seq::empty())
        } else {
            rest.update(rest.len() - 1, rest.last().push(s.last()))
        }
    }
}

/// The pieces of `ls` joined with `sep` between each two.
pub open spec fn join_with(ls: Seq<Seq<char>>, sep: char) -> Seq<char>
    decreases ls.len(),
{
    if ls.len() == 0 {
        Seq::empty()
    } else if ls.len() == 1 {
        ls[0]
    } else {
        join_with(ls.drop_last(), sep) + seq![sep] + ls.last()
    }
}

/// One entry's line: `<index>\t<freq>\t<word>`.
pub open spec fn line_text(e: (Seq<char>, usize, u32)) -> Seq<char> {
    join_with(seq![decimal(e.1 as nat), decimal(e.2 as nat), e.0], SEP)
}

/// The text of a blob holding `entries`, one line each.
pub open spec fn blob_text(entries: Seq<(Seq<char>, usize, u32)>) -> Seq<char> {
    join_with(entries.map_values(|e: (Seq<char>, usize, u32)| line_text(e)), NEWLINE)
}

/// The entry a line describes, if it is well formed: exactly three fields, an
/// index that fits `usize`, a frequency that fits `u32`, and a non-empty
/// storable word.
pub open spec fn line_entry(line: Seq<char>) -> Option<(Seq<char>, usize, u32)> {
    let f = split_on(line, SEP);
    if f.len() == 3 {
        match (parsed_unsigned(f[0], usize::MAX as nat), parsed_unsigned(f[1], u32::MAX as nat)) {
            (Some(i), Some(q)) => if f[2].len() > 0 && storable(f[2]) {
                Some((f[2], i as usize, q as u32))
            } else {
                None
            },
            _ => None,
        }
    } else {
        None
    }
}

/// The entries of `lines`, when every line is well formed.
pub open spec fn lines_entries(lines: Seq<Seq<char>>) -> Option<Seq<(Seq<char>, usize, u32)>>
    decreases lines.len(),
{
    if lines.len() == 0 {
        Some(Seq::empty())
    } else {
        match (lines_entries(lines.drop_last()), line_entry(lines.last())) {
            (Some(es), Some(e)) => Some(es.push(e)),
            _ => None,
        }
    }
}

/// What a blob decodes to: `None` unless it is UTF-8 and every line is well
/// formed; the empty blob holds no entries.
pub open spec fn decoded(bytes: Seq<u8>) -> Option<Seq<(Seq<char>, usize, u32)>> {
    if !valid_utf8(bytes) {
        None
    } else if decode_utf8(bytes).len() == 0 {
        Some(Seq::empty())
    } else {
        lines_entries(split_on(decode_utf8(bytes), NEWLINE))
    }
}

/// An entry list as plain values.
pub open spec fn entries_view(v: Seq<(String, usize, u32)>) -> Seq<(Seq<char>, usize, u32)> {
    v.map_values(|e: (String, usize, u32)| (e.0@, e.1, e.2))
}

/// `std::str::from_utf8`, keeping the text and dropping the error. The
/// contract states what the standard library documents: the bytes are
/// accepted exactly when they are valid UTF-8, and the text is what they
/// encode.
#[verifier::external_body]
fn utf8_text(bytes: &[u8]) -> (r: Option<&str>)
    ensures
        r is Some <==> valid_utf8(bytes@),
        r matches Some(t) ==> t@ == decode_utf8(bytes@),
{
    std::str::from_utf8(bytes).ok()
}

/// Append the decimal text of `n`.
fn push_decimal(out: &mut Vec<char>, n: u64)
    ensures
        final(out)@ == old(out)@ + decimal(n as nat),
    decreases n,
{
    if n >= 10 {
        push_decimal(out, n / 10);
    }
    let d = (n % 10) as u8;
    out.push((48u8 + d) as char);
}

/// The UTF-8 bytes of `s`.
fn utf8_bytes(s: &str) -> (r: Vec<u8>)
    ensures
        r@ == encode_utf8(s@),
{
    let b = s.as_bytes();
    let mut out: Vec<u8> = Vec::new();
    for i in 0..b.len()
        invariant
            out@ == b@.take(i as int),
    {
        out.push(b[i]);
    }
    proof {
        assert(b@.take(b@.len() as int) =~= b@);
    }
    out
}

/// Encode `entries`, in the order given, one line each.
pub fn encode_entries(entries: &[(String, usize, u32)]) -> (r: Vec<u8>)
    ensures
        r@ == encode_utf8(blob_text(entries_view(entries@))),
{
    let ghost lines = entries_view(entries@).map_values(|e: (Seq<char>, usize, u32)| line_text(e));
    let mut text: Vec<char> = Vec::new();
    for k in 0..entries.len()
        invariant
            lines == entries_view(entries@).map_values(|e: (Seq<char>, usize, u32)| line_text(e)),
            text@ == join_with(lines.take(k as int), NEWLINE),
    {
        let ghost before = text@;
        if k > 0 {
            text.push(NEWLINE);
        }
        let (word, index, freq) = (&entries[k].0, entries[k].1, entries[k].2);
        push_decimal(&mut text, index as u64);
        text.push(SEP);
        push_decimal(&mut text, freq as u64);
        text.push(SEP);
        let mut wc = chars_of(word.as_str());
        text.append(&mut wc);
        proof {
            let e = entries_view(entries@)[k as int];
            assert(e == (word@, index, freq));
            let l = line_text(e);
            assert(seq![decimal(index as nat), decimal(freq as nat), word@].drop_last() =~= seq![
                decimal(index as nat),
                decimal(freq as nat),
            ]);
            assert(seq![decimal(index as nat), decimal(freq as nat)].drop_last() =~= seq![
                decimal(index as nat),
            ]);
            let l3 = seq![decimal(index as nat), decimal(freq as nat), word@];
            let l2 = seq![decimal(index as nat), decimal(freq as nat)];
            let l1 = seq![decimal(index as nat)];
            assert(l3.drop_last() =~= l2 && l2.drop_last() =~= l1);
            assert(join_with(l1, SEP) == decimal(index as nat));
            assert(join_with(l2, SEP) == join_with(l1, SEP) + seq![SEP] + decimal(freq as nat));
            assert(join_with(l3, SEP) == join_with(l2, SEP) + seq![SEP] + word@);
            assert(l =~= decimal(index as nat) + seq![SEP] + decimal(freq as nat) + seq![SEP] + word@);
            assert(lines.take(k + 1).drop_last() =~= lines.take(k as int));
            assert(lines.take(k + 1).last() == l);
            if k == 0 {
                assert(text@ =~= l);
            } else {
                assert(text@ =~= before + seq![NEWLINE] + l);
            }
        }
    }
    proof {
        assert(lines.take(entries@.len() as int) =~= lines);
    }
    let s = string_from_chars(&text);
    utf8_bytes(s.as_str())
}

/// Encode every learned entry of `vocab` into one blob, in ascending word
/// order.
pub fn encode(vocab: &Vocab) -> (r: Vec<u8>)
    requires
        vocab.wf(),
    ensures
        exists|entries: Seq<(String, usize, u32)>|
            #![trigger entries_view(entries)]
            vocab.listed(entries) && r@ == encode_utf8(blob_text(entries_view(entries))),
{
    let entries = vocab.entries();
    let r = encode_entries(entries.as_slice());
    assert(vocab.listed(entries@));
    r
}

/// `s` split at every `sep`.
pub fn split_chars(s: &Vec<char>, sep: char) -> (r: Vec<Vec<char>>)
    ensures
        r@.map_values(|v: Vec<char>| v@) == split_on(s@, sep),
{
    let mut out: Vec<Vec<char>> = Vec::new();
    let mut cur: Vec<char> = Vec::new();
    proof {
        assert(s@.take(0) =~= Seq::<char>::empty());
        assert(out@.map_values(|v: Vec<char>| v@).push(cur@) =~= seq![Seq::<char>::empty()]);
    }
    for i in 0..s.len()
        invariant
            out@.map_values(|v: Vec<char>| v@).push(cur@) == split_on(s@.take(i as int), sep),
    {
        let ghost prev = out@.map_values(|v: Vec<char>| v@).push(cur@);
        proof {
            assert(s@.take(i + 1).drop_last() =~= s@.take(i as int));
            assert(s@.take(i + 1).last() == s@[i as int]);
        }
        if s[i] == sep {
            let done = cur;
            out.push(done);
            cur = Vec::new();
            proof {
                assert(out@.map_values(|v: Vec<char>| v@).push(cur@) =~= prev.push(Seq::empty()));
            }
        } else {
            cur.push(s[i]);
            proof {
                assert(out@.map_values(|v: Vec<char>| v@).push(cur@) =~= prev.update(
                    prev.len() - 1,
                    prev.last().push(s@[i as int]),
                ));
            }
        }
    }
    proof {
        assert(s@.take(s@.len() as int) =~= s@);
    }
    out.push(cur);
    proof {
        assert(out@.map_values(|v: Vec<char>| v@) =~= split_on(s@, sep));
    }
    out
}

/// Each step keeps a run of digits' value at least that of its prefix.
proof fn lemma_digits_prefix(s: Seq<char>, k: int)
    requires
        all_digits(s),
        0 <= k <= s.len(),
    ensures
        digits_value(s.take(k)) <= digits_value(s),
    decreases s.len(),
{
    if k < s.len() {
        let p = s.drop_last();
        assert(all_digits(p)) by {
            assert forall|i: int| 0 <= i < p.len() implies is_digit(#[trigger] p[i]) by {
                assert(p[i] == s[i]);
            }
        }
        assert(p.take(k) =~= s.take(k));
        lemma_digits_prefix(p, k);
        assert(is_digit(s[s.len() - 1]));
    } else {
        assert(s.take(k) =~= s);
    }
}

/// Read `s` as an unsigned integer no larger than `max`, as the standard
/// library's `parse` does.
pub fn parse_unsigned(s: &Vec<char>, max: u64) -> (r: Option<u64>)
    ensures
        r == (match parsed_unsigned(s@, max as nat) {
            Some(v) => Some(v as u64),
            None => None::<u64>,
        }),
{
    let start: usize = if s.len() > 0 && s[0] == '+' {
        1
    } else {
        0
    };
    let ghost b = unsigned_body(s@);
    proof {
        assert(b =~= s@.subrange(start as int, s@.len() as int));
    }
    if start == s.len() {
        return None;
    }
    let mut acc: u64 = 0;
    let mut j: usize = start;
    proof {
        assert(b.take(0) =~= Seq::<char>::empty());
    }
    while j < s.len()
        invariant
            start <= j <= s@.len(),
            b == s@.subrange(start as int, s@.len() as int),
            b == unsigned_body(s@),
            all_digits(b.take(j - start)),
            acc == digits_value(b.take(j - start)),
            acc <= max,
        decreases s@.len() - j,
    {
        let c = s[j];
        let ghost k = j - start;
        if !('0' <= c && c <= '9') {
            proof {
                assert(b[k] == c);
                assert(!is_digit(b[k]));
                assert(!all_digits(b));
            }
            return None;
        }
        let d = (c as u32 - 48) as u64;
        proof {
            assert(b.take(k + 1).drop_last() =~= b.take(k));
            assert(b.take(k + 1).last() == c);
            assert(all_digits(b.take(k + 1))) by {
                assert forall|i: int| 0 <= i < k + 1 implies is_digit(#[trigger] b.take(k + 1)[i]) by {
                    if i < k {
                        assert(b.take(k + 1)[i] == b.take(k)[i]);
                    }
                }
            }
        }
        if d > max || acc > (max - d) / 10 {
            proof {
                if d <= max {
                    assert(acc * 10 + d > max) by (nonlinear_arith)
                        requires
                            acc > (max - d) / 10,
                            d <= max,
                    ;
                }
                if all_digits(b) {
                    lemma_digits_prefix(b, k + 1);
                }
            }
            return None;
        }
        proof {
            assert(acc * 10 + d <= max) by (nonlinear_arith)
                requires
                    acc <= (max - d) / 10,
                    d <= max,
            ;
        }
        acc = acc * 10 + d;
        j = j + 1;
    }
    proof {
        assert(b.take(b.len() as int) =~= b);
    }
    Some(acc)
}

/// Decode one line into its entry, if it is well formed.
fn decode_line(line: &Vec<char>) -> (r: Option<(String, usize, u32)>)
    ensures
        match line_entry(line@) {
            Some(e) => r matches Some(x) && x.0@ == e.0 && x.1 == e.1 && x.2 == e.2,
            None => r is None,
        },
{
    let fields = split_chars(line, SEP);
    let ghost f = fields@.map_values(|v: Vec<char>| v@);
    if fields.len() != 3 {
        return None;
    }
    proof {
        assert(f[0] == fields@[0]@ && f[1] == fields@[1]@ && f[2] == fields@[2]@);
    }
    let index = match parse_unsigned(&fields[0], usize::MAX as u64) {
        Some(v) => v as usize,
        None => return None,
    };
    let freq = match parse_unsigned(&fields[1], u32::MAX as u64) {
        Some(v) => v as u32,
        None => return None,
    };
    let word = string_from_chars(&fields[2]);
    if fields[2].len() == 0 || !is_storable(word.as_str()) {
        return None;
    }
    Some((word, index, freq))
}

/// Decode a blob back into `(word, index, freq)` entries, in the order they
/// appear. `None` for non-UTF-8 bytes, a line with the wrong field count, a
/// non-numeric or out-of-range index or frequency, or an empty word or one
/// holding a separator.
pub fn decode(bytes: &[u8]) -> (r: Option<Vec<(String, usize, u32)>>)
    ensures
        match decoded(bytes@) {
            Some(es) => r matches Some(v) && entries_view(v@) == es,
            None => r is None,
        },
{
    let text = match utf8_text(bytes) {
        Some(t) => t,
        None => return None,
    };
    let chars = chars_of(text);
    if chars.len() == 0 {
        proof {
            assert(entries_view(Seq::<(String, usize, u32)>::empty()) =~= Seq::empty());
        }
        return Some(Vec::new());
    }
    let lines = split_chars(&chars, NEWLINE);
    let ghost ls = lines@.map_values(|v: Vec<char>| v@);
    let mut entries: Vec<(String, usize, u32)> = Vec::new();
    proof {
        assert(ls.take(0) =~= Seq::<Seq<char>>::empty());
        assert(entries_view(entries@) =~= Seq::empty());
    }
    for k in 0..lines.len()
        invariant
            ls == lines@.map_values(|v: Vec<char>| v@),
            ls == split_on(decode_utf8(bytes@), NEWLINE),
            valid_utf8(bytes@),
            decode_utf8(bytes@).len() > 0,
            lines_entries(ls.take(k as int)) == Some(entries_view(entries@)),
    {
        proof {
            assert(ls.take(k + 1).drop_last() =~= ls.take(k as int));
            assert(ls.take(k + 1).last() == lines@[k as int]@);
        }
        match decode_line(&lines[k]) {
            Some(e) => {
                let ghost before = entries@;
                entries.push(e);
                proof {
                    assert(entries_view(entries@) =~= entries_view(before).push((e.0@, e.1, e.2)));
                }
            },
            None => {
                proof {
                    lemma_lines_entries_none(ls, k as int);
                }
                return None;
            },
        }
    }
    proof {
        assert(ls.take(ls.len() as int) =~= ls);
    }
    Some(entries)
}

/// One bad line spoils every longer run of lines.
proof fn lemma_lines_entries_none(ls: Seq<Seq<char>>, k: int)
    requires
        0 <= k < ls.len(),
        line_entry(ls[k]) is None,
    ensures
        lines_entries(ls) is None,
    decreases ls.len(),
{
    if k < ls.len() - 1 {
        assert(ls.drop_last()[k] == ls[k]);
        lemma_lines_entries_none(ls.drop_last(), k);
    }
}

/// The decimal text of `n` is a non-empty run of digits worth `n`.
proof fn lemma_decimal(n: nat)
    ensures
        decimal(n).len() > 0,
        all_digits(decimal(n)),
        digits_value(decimal(n)) == n,
    decreases n,
{
    if n >= 10 {
        lemma_decimal(n / 10);
        let d = decimal(n);
        let p = decimal(n / 10);
        assert(d.drop_last() =~= p);
        assert forall|i: int| 0 <= i < d.len() implies is_digit(#[trigger] d[i]) by {
            if i < p.len() {
                assert(d[i] == p[i]);
            }
        }
        assert(n == (n / 10) * 10 + n % 10);
        assert(d.last() == digit_char(n % 10));
        assert(digit_char(n % 10) as int == 48 + n % 10);
        assert(digits_value(d) == digits_value(d.drop_last()) * 10 + ((d.last() as int) - 48) as nat);
        assert(digits_value(d.drop_last()) == n / 10);
    } else {
        assert(decimal(n).drop_last() =~= Seq::<char>::empty());
        assert(digit_char(n) as int == 48 + n);
        assert(is_digit(decimal(n)[0]));
        assert(digits_value(decimal(n)) == digits_value(decimal(n).drop_last()) * 10 + ((decimal(
            n,
        ).last() as int) - 48) as nat);
    }
}

/// Every split has at least one piece.
proof fn lemma_split_nonempty(s: Seq<char>, sep: char)
    ensures
        split_on(s, sep).len() >= 1,
    decreases s.len(),
{
    if s.len() > 0 {
        lemma_split_nonempty(s.drop_last(), sep);
    }
}

/// A run of digits holds neither separator, nor a leading sign.
proof fn lemma_digits_plain(s: Seq<char>)
    requires
        all_digits(s),
    ensures
        forall|i: int| 0 <= i < s.len() ==> #[trigger] s[i] != SEP && s[i] != NEWLINE,
        unsigned_body(s) == s,
{
    assert forall|i: int| 0 <= i < s.len() implies #[trigger] s[i] != SEP && s[i] != NEWLINE by {
        assert(is_digit(s[i]));
    }
    if s.len() > 0 {
        assert(is_digit(s[0]));
    }
}

/// A text without `sep` splits into itself alone.
proof fn lemma_split_single(s: Seq<char>, sep: char)
    requires
        forall|i: int| 0 <= i < s.len() ==> #[trigger] s[i] != sep,
    ensures
        split_on(s, sep) == seq![s],
    decreases s.len(),
{
    if s.len() > 0 {
        let p = s.drop_last();
        assert forall|i: int| 0 <= i < p.len() implies #[trigger] p[i] != sep by {
            assert(p[i] == s[i]);
        }
        lemma_split_single(p, sep);
        assert(s.last() == s[s.len() - 1]);
        assert(s[s.len() - 1] != sep);
        assert(p.push(s.last()) =~= s);
        assert(seq![p].update(0, seq![p].last().push(s.last())) =~= seq![s]);
    } else {
        assert(s =~= Seq::<char>::empty());
    }
}

/// Splitting at a separator between two texts splits each side.
proof fn lemma_split_concat(a: Seq<char>, b: Seq<char>, sep: char)
    ensures
        split_on(a + seq![sep] + b, sep) == split_on(a, sep) + split_on(b, sep),
    decreases b.len(),
{
    let x = a + seq![sep] + b;
    if b.len() == 0 {
        assert(x.drop_last() =~= a);
        assert(x.last() == sep);
        assert(split_on(b, sep) =~= seq![Seq::<char>::empty()]);
        assert(split_on(a, sep).push(Seq::empty()) =~= split_on(a, sep) + split_on(b, sep));
    } else {
        let b2 = b.drop_last();
        lemma_split_concat(a, b2, sep);
        assert(x.drop_last() =~= a + seq![sep] + b2);
        assert(x.last() == b.last());
        let sa = split_on(a, sep);
        let sb2 = split_on(b2, sep);
        lemma_split_nonempty(b2, sep);
        if b.last() == sep {
            assert((sa + sb2).push(Seq::empty()) =~= sa + sb2.push(Seq::empty()));
        } else {
            assert((sa + sb2).update((sa + sb2).len() - 1, (sa + sb2).last().push(b.last())) =~= sa
                + sb2.update(sb2.len() - 1, sb2.last().push(b.last())));
        }
    }
}

/// Splitting pieces joined at a separator they do not hold gives the pieces.
proof fn lemma_split_join(ls: Seq<Seq<char>>, sep: char)
    requires
        ls.len() >= 1,
        forall|k: int, i: int| 0 <= k < ls.len() && 0 <= i < ls[k].len() ==> #[trigger] ls[k][i] != sep,
    ensures
        split_on(join_with(ls, sep), sep) == ls,
    decreases ls.len(),
{
    if ls.len() == 1 {
        assert forall|i: int| 0 <= i < ls[0].len() implies #[trigger] ls[0][i] != sep by {
            assert(ls[0][i] != sep);
        }
        lemma_split_single(ls[0], sep);
        assert(seq![ls[0]] =~= ls);
    } else {
        let p = ls.drop_last();
        assert forall|k: int, i: int| 0 <= k < p.len() && 0 <= i < p[k].len() implies #[trigger] p[k][i]
            != sep by {
            assert(p[k] == ls[k]);
            assert(ls[k][i] != sep);
        }
        lemma_split_join(p, sep);
        let l = ls.last();
        assert forall|i: int| 0 <= i < l.len() implies #[trigger] l[i] != sep by {
            assert(ls[ls.len() - 1][i] != sep);
        }
        lemma_split_single(l, sep);
        lemma_split_concat(join_with(p, sep), l, sep);
        assert(p + seq![l] =~= ls);
    }
}

/// A well-formed entry's line reads back as that entry.
proof fn lemma_line_round_trip(e: (Seq<char>, usize, u32))
    requires
        e.0.len() > 0,
        storable(e.0),
    ensures
        line_entry(line_text(e)) == Some(e),
        line_text(e).len() > 0,
        forall|i: int| 0 <= i < line_text(e).len() ==> #[trigger] line_text(e)[i] != NEWLINE,
{
    let di = decimal(e.1 as nat);
    let df = decimal(e.2 as nat);
    lemma_decimal(e.1 as nat);
    lemma_decimal(e.2 as nat);
    lemma_digits_plain(di);
    lemma_digits_plain(df);
    let ls = seq![di, df, e.0];
    assert forall|k: int, i: int| 0 <= k < ls.len() && 0 <= i < ls[k].len() implies #[trigger] ls[k][i]
        != SEP && ls[k][i] != NEWLINE by {
        if k == 2 {
            assert(!(e.0[i] == '\n' || e.0[i] == '\t'));
        }
    }
    lemma_split_join(ls, SEP);
    let l2 = seq![di, df];
    let l1 = seq![di];
    assert(ls.drop_last() =~= l2 && l2.drop_last() =~= l1);
    assert(join_with(l1, SEP) == di);
    assert(join_with(l2, SEP) == join_with(l1, SEP) + seq![SEP] + df);
    assert(join_with(ls, SEP) == join_with(l2, SEP) + seq![SEP] + e.0);
    let t = line_text(e);
    assert(t =~= di + seq![SEP] + df + seq![SEP] + e.0);
    assert forall|i: int| 0 <= i < t.len() implies #[trigger] t[i] != NEWLINE by {
        if i < di.len() {
            assert(t[i] == di[i]);
        } else if i == di.len() {
        } else if i < di.len() + 1 + df.len() {
            assert(t[i] == df[i - di.len() - 1]);
        } else if i == di.len() + 1 + df.len() {
        } else {
            let j = i - di.len() - 2 - df.len();
            assert(t[i] == e.0[j]);
            assert(!(e.0[j] == '\n' || e.0[j] == '\t'));
        }
    }
}

/// Well-formed entries read back from their lines.
proof fn lemma_lines_round_trip(entries: Seq<(Seq<char>, usize, u32)>)
    requires
        forall|i: int| 0 <= i < entries.len() ==> (#[trigger] entries[i]).0.len() > 0 && storable(entries[i].0),
    ensures
        lines_entries(entries.map_values(|e: (Seq<char>, usize, u32)| line_text(e))) == Some(entries),
    decreases entries.len(),
{
    if entries.len() > 0 {
        let p = entries.drop_last();
        assert forall|i: int| 0 <= i < p.len() implies (#[trigger] p[i]).0.len() > 0 && storable(p[i].0) by {
            assert(p[i] == entries[i]);
        }
        lemma_lines_round_trip(p);
        let ls = entries.map_values(|e: (Seq<char>, usize, u32)| line_text(e));
        assert(ls.drop_last() =~= p.map_values(|e: (Seq<char>, usize, u32)| line_text(e)));
        assert(entries.last() == entries[entries.len() - 1]);
        lemma_line_round_trip(entries.last());
        assert(p.push(entries.last()) =~= entries);
    }
}

/// Decoding what was encoded gives back the same entries, in the same order,
/// for any entries whose words are non-empty and hold no separator.
pub proof fn decode_undoes_encode(entries: Seq<(Seq<char>, usize, u32)>)
    requires
        forall|i: int| 0 <= i < entries.len() ==> (#[trigger] entries[i]).0.len() > 0 && storable(entries[i].0),
    ensures
        decoded(encode_utf8(blob_text(entries))) == Some(entries),
{
    let ls = entries.map_values(|e: (Seq<char>, usize, u32)| line_text(e));
    let t = blob_text(entries);
    lemma_lines_round_trip(entries);
    if entries.len() == 0 {
        assert(ls.len() == 0);
        assert(t.len() == 0);
    } else {
        assert forall|k: int, i: int| 0 <= k < ls.len() && 0 <= i < ls[k].len() implies #[trigger] ls[k][i]
            != NEWLINE by {
            lemma_line_round_trip(entries[k]);
            assert(ls[k] == line_text(entries[k]));
        }
        lemma_split_join(ls, NEWLINE);
        lemma_line_round_trip(entries[0]);
        assert(split_on(t, NEWLINE).len() > 0);
        if t.len() == 0 {
            assert(split_on(t, NEWLINE) =~= seq![Seq::<char>::empty()]);
            assert(ls[0].len() > 0);
        }
    }
}

/// A vocabulary's blob decodes back to its entries, in ascending word order.
pub proof fn vocab_blob_round_trip(v: Vocab, entries: Seq<(String, usize, u32)>)
    requires
        v.wf(),
        v.listed(entries),
    ensures
        decoded(encode_utf8(blob_text(entries_view(entries)))) == Some(entries_view(entries)),
{
    let ev = entries_view(entries);
    assert forall|i: int| 0 <= i < ev.len() implies (#[trigger] ev[i]).0.len() > 0 && storable(ev[i].0) by {
        assert(ev[i].0 == entries[i].0@);
        v.lemma_listed_learnable(entries, i);
    }
    decode_undoes_encode(ev);
}

/// Two lists of entries, each strictly ascending by word and holding the
/// same words with the same values, are the same list.
proof fn lemma_listing_unique(a: Seq<(Seq<char>, usize, u32)>, b: Seq<(Seq<char>, usize, u32)>)
    requires
        forall|i: int, j: int| 0 <= i < j < a.len() ==> seq_lt((#[trigger] a[i]).0, (#[trigger] a[j]).0),
        forall|i: int, j: int| 0 <= i < j < b.len() ==> seq_lt((#[trigger] b[i]).0, (#[trigger] b[j]).0),
        forall|e: (Seq<char>, usize, u32)| #[trigger] a.contains(e) <==> b.contains(e),
    ensures
        a == b,
    decreases a.len(),
{
    if a.len() == 0 {
        if b.len() > 0 {
            assert(b.contains(b[0]));
            assert(a.contains(b[0]));
        }
        assert(a =~= b);
    } else {
        assert(a.contains(a[0]));
        assert(b.contains(a[0]));
        assert(b.len() > 0);
        assert(b.contains(b[0]));
        assert(a.contains(b[0]));
        let i = choose|i: int| 0 <= i < b.len() && b[i] == a[0];
        let j = choose|j: int| 0 <= j < a.len() && a[j] == b[0];
        if i > 0 && j > 0 {
            lemma_seq_lt_asymmetric(b[0].0, a[0].0);
        } else if i > 0 {
            assert(b[0] == a[0]);
        }
        if j > 0 && i == 0 {
            assert(b[0] == a[0]);
        }
        assert(a[0] == b[0]) by {
            if a[0] != b[0] {
                assert(i > 0 && j > 0);
                assert(seq_lt(b[0].0, b[i].0));
                assert(seq_lt(a[0].0, a[j].0));
                lemma_seq_lt_asymmetric(b[0].0, a[0].0);
            }
        }
        let ta = a.drop_first();
        let tb = b.drop_first();
        assert forall|e: (Seq<char>, usize, u32)| #[trigger] ta.contains(e) <==> tb.contains(e) by {
            if ta.contains(e) {
                let k = choose|k: int| 0 <= k < ta.len() && ta[k] == e;
                assert(a[k + 1] == e);
                assert(a.contains(e));
                assert(b.contains(e));
                let t = choose|t: int| 0 <= t < b.len() && b[t] == e;
                if t == 0 {
                    assert(seq_lt(a[0].0, a[k + 1].0));
                    lemma_seq_lt_irreflexive(a[0].0);
                }
                assert(tb[t - 1] == e);
            }
            if tb.contains(e) {
                let k = choose|k: int| 0 <= k < tb.len() && tb[k] == e;
                assert(b[k + 1] == e);
                assert(b.contains(e));
                assert(a.contains(e));
                let t = choose|t: int| 0 <= t < a.len() && a[t] == e;
                if t == 0 {
                    assert(seq_lt(b[0].0, b[k + 1].0));
                    lemma_seq_lt_irreflexive(b[0].0);
                }
                assert(ta[t - 1] == e);
            }
        }
        lemma_listing_unique(ta, tb);
        assert(a =~= seq![a[0]] + ta);
        assert(b =~= seq![b[0]] + tb);
    }
}

/// Vocabularies with the same learned entries encode to identical bytes.
pub proof fn equal_vocabularies_encode_alike(
    v1: Vocab,
    e1: Seq<(String, usize, u32)>,
    v2: Vocab,
    e2: Seq<(String, usize, u32)>,
)
    requires
        v1.wf(),
        v2.wf(),
        v1.listed(e1),
        v2.listed(e2),
        v1.entries_view() == v2.entries_view(),
    ensures
        entries_view(e1) == entries_view(e2),
        encode_utf8(blob_text(entries_view(e1))) == encode_utf8(blob_text(entries_view(e2))),
{
    v1.lemma_listed_words(e1);
    v2.lemma_listed_words(e2);
    let a = entries_view(e1);
    let b = entries_view(e2);
    let m = v1.entries_view();
    assert forall|e: (Seq<char>, usize, u32)| #[trigger] a.contains(e) <==> b.contains(e) by {
        if a.contains(e) {
            let i = choose|i: int| 0 <= i < a.len() && a[i] == e;
            assert(m.contains_key(e1[i].0@));
            assert(m[e1[i].0@] == (e1[i].1, e1[i].2));
            let j = choose|j: int| 0 <= j < e2.len() && e2[j].0@ == e.0;
            assert(b[j] == e);
        }
        if b.contains(e) {
            let i = choose|i: int| 0 <= i < b.len() && b[i] == e;
            assert(m.contains_key(e2[i].0@));
            assert(m[e2[i].0@] == (e2[i].1, e2[i].2));
            let j = choose|j: int| 0 <= j < e1.len() && e1[j].0@ == e.0;
            assert(a[j] == e);
        }
    }
    assert forall|i: int, j: int| 0 <= i < j < a.len() implies seq_lt((#[trigger] a[i]).0, (#[trigger] a[j]).0) by {
        assert(seq_lt(e1[i].0@, e1[j].0@));
    }
    assert forall|i: int, j: int| 0 <= i < j < b.len() implies seq_lt((#[trigger] b[i]).0, (#[trigger] b[j]).0) by {
        assert(seq_lt(e2[i].0@, e2[j].0@));
    }
    lemma_listing_unique(a, b);
}

} // verus!
