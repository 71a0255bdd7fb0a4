//! Which alpha page a language gets: a Cyrillic or Greek locale gets its
//! native letter block, a Latin locale its national arrangement or the user's
//! explicit choice.
use crate::text::{chars_of, compare_char_vecs, Order};
use vstd::prelude::*;

verus! {

/// The Latin key arrangements a user can pick, independent of language.
#[derive(Debug, Clone, Copy, PartialEq, Eq)]
pub enum LatinLayout {
    Qwerty,
    Qwertz,
    Azerty,
}

/// The letter page presented for a language.
#[derive(Debug, Clone, Copy, PartialEq, Eq)]
pub enum AlphaPage {
    /// The Russian ЙЦУКЕН block.
    Cyrillic,
    /// The Greek block.
    Greek,
    /// Latin QWERTY.
    Qwerty,
    /// Latin QWERTZ (German).
    Qwertz,
    /// Latin AZERTY (French).
    Azerty,
}

/// The scripts the alpha page can present.
#[derive(Debug, Clone, Copy, PartialEq, Eq)]
pub enum Script {
    Cyrillic,
    Greek,
    Latin,
}

/// A subtag separator of a BCP-47 tag (`-`, or `_` as Android writes it).
pub open spec fn is_tag_separator(c: char) -> bool {
    c == '-' || c == '_'
}

/// The position of the first subtag separator in `t`, or its length.
pub open spec fn first_separator(t: Seq<char>) -> int
    decreases t.len(),
{
    if t.len() == 0 {
        0
    } else if is_tag_separator(t[0]) {
        0
    } else {
        1 + first_separator(t.drop_first())
    }
}

/// The primary subtag of a language tag: everything before the first
/// separator (so `ru-RU` and `ru` agree).
pub open spec fn primary_subtag(t: Seq<char>) -> Seq<char> {
    t.take(first_separator(t))
}

/// The script a language tag's primary subtag is written in.
pub open spec fn script_spec(t: Seq<char>) -> Script {
    let p = primary_subtag(t);
    if p == "ru"@ || p == "uk"@ || p == "be"@ || p == "bg"@ || p == "sr"@ || p == "mk"@ {
        Script::Cyrillic
    } else if p == "el"@ {
        Script::Greek
    } else {
        Script::Latin
    }
}

/// The per-locale Latin page used when the user set no arrangement.
pub open spec fn default_latin_spec(t: Seq<char>) -> AlphaPage {
    let p = primary_subtag(t);
    if p == "fr"@ {
        AlphaPage::Azerty
    } else if p == "de"@ || p == "lb"@ {
        AlphaPage::Qwertz
    } else {
        AlphaPage::Qwerty
    }
}

/// The page a Latin arrangement builds.
pub open spec fn latin_page(l: LatinLayout) -> AlphaPage {
    match l {
        LatinLayout::Qwerty => AlphaPage::Qwerty,
        LatinLayout::Qwertz => AlphaPage::Qwertz,
        LatinLayout::Azerty => AlphaPage::Azerty,
    }
}

/// The alpha page for a tag: native blocks for Cyrillic and Greek (the
/// override is ignored), otherwise the override or the per-locale default.
pub open spec fn alpha_page_spec(t: Seq<char>, latin_override: Option<LatinLayout>) -> AlphaPage {
    match script_spec(t) {
        Script::Cyrillic => AlphaPage::Cyrillic,
        Script::Greek => AlphaPage::Greek,
        Script::Latin => match latin_override {
            Some(l) => latin_page(l),
            None => default_latin_spec(t),
        },
    }
}

/// The characters of `tag`'s primary subtag.
pub fn primary_subtag_of(tag: &str) -> (p: Vec<char>)
    ensures
        p@ == primary_subtag(tag@),
{
    let t = chars_of(tag);
    let mut k: usize = 0;
    assert(t@.skip(0) =~= t@);
    while k < t.len() && t[k] != '-' && t[k] != '_'
        invariant
            k <= t@.len(),
            t@ == tag@,
            first_separator(t@) == k + first_separator(t@.skip(k as int)),
        decreases t.len() - k,
    {
        assert(t@.skip(k as int).drop_first() =~= t@.skip(k + 1));
        k = k + 1;
    }
    let mut p: Vec<char> = Vec::new();
    for i in 0..k
        invariant
            k <= t@.len(),
            p@ == t@.take(i as int),
    {
        p.push(t[i]);
        assert(t@.take(i + 1) =~= t@.take(i as int).push(t@[i as int]));
    }
    p
}

/// `true` when `a` holds exactly the characters of `s`.
fn chars_are(a: &Vec<char>, s: &str) -> (r: bool)
    ensures
        r == (a@ == s@),
{
    let b = chars_of(s);
    let o = compare_char_vecs(a, &b);
    proof {
        crate::text::lemma_seq_lt_irreflexive(a@);
    }
    match o {
        Order::Equal => true,
        _ => false,
    }
}

/// Classify a BCP-47 `tag` by its primary subtag.
pub fn script_of(tag: &str) -> (s: Script)
    ensures
        s == script_spec(tag@),
{
    let p = primary_subtag_of(tag);
    if chars_are(&p, "ru") || chars_are(&p, "uk") || chars_are(&p, "be") || chars_are(&p, "bg")
        || chars_are(&p, "sr") || chars_are(&p, "mk") {
        Script::Cyrillic
    } else if chars_are(&p, "el") {
        Script::Greek
    } else {
        Script::Latin
    }
}

/// The per-locale Latin page (used when no arrangement is set).
pub fn default_latin_for(tag: &str) -> (page: AlphaPage)
    ensures
        page == default_latin_spec(tag@),
{
    let p = primary_subtag_of(tag);
    if chars_are(&p, "fr") {
        AlphaPage::Azerty
    } else if chars_are(&p, "de") || chars_are(&p, "lb") {
        AlphaPage::Qwertz
    } else {
        AlphaPage::Qwerty
    }
}

impl LatinLayout {
    /// The page this arrangement builds.
    pub fn page(self) -> (page: AlphaPage)
        ensures
            page == latin_page(self),
    {
        match self {
            LatinLayout::Qwerty => AlphaPage::Qwerty,
            LatinLayout::Qwertz => AlphaPage::Qwertz,
            LatinLayout::Azerty => AlphaPage::Azerty,
        }
    }
}

/// The alpha page for a BCP-47 language `tag`: Cyrillic/Greek locales always
/// get their native block (`latin_override` is ignored, so the script stays
/// typable); a Latin locale gets `latin_override` when set, else its default.
pub fn alpha_page_for(tag: &str, latin_override: Option<LatinLayout>) -> (page: AlphaPage)
    ensures
        page == alpha_page_spec(tag@, latin_override),
{
    match script_of(tag) {
        Script::Cyrillic => AlphaPage::Cyrillic,
        Script::Greek => AlphaPage::Greek,
        Script::Latin => match latin_override {
            Some(l) => l.page(),
            None => default_latin_for(tag),
        },
    }
}

impl AlphaPage {
    /// The page's three rows of letters, top to bottom, each left to right.
    pub fn rows(self) -> (r: (&'static str, &'static str, &'static str))
        ensures
            self == AlphaPage::Cyrillic ==> r.0@ == "йцукенгшщзхъ"@ && r.1@ == "фывапролджэ"@ && r.2@
                == "ячсмитьбю"@,
            self == AlphaPage::Greek ==> r.0@ == "ςερτυθιοπ"@ && r.1@ == "ασδφγηξκλ"@ && r.2@
                == "ζχψωβνμ"@,
            self == AlphaPage::Azerty ==> r.0@ == "azertyuiop"@ && r.1@ == "qsdfghjklm"@ && r.2@
                == "wxcvbn"@,
            self == AlphaPage::Qwertz ==> r.0@ == "qwertzuiop"@ && r.1@ == "asdfghjkl"@ && r.2@
                == "yxcvbnm"@,
            self == AlphaPage::Qwerty ==> r.0@ == "qwertyuiop"@ && r.1@ == "asdfghjkl"@ && r.2@
                == "zxcvbnm"@,
    {
        match self {
            AlphaPage::Cyrillic => ("йцукенгшщзхъ", "фывапролджэ", "ячсмитьбю"),
            AlphaPage::Greek => ("ςερτυθιοπ", "ασδφγηξκλ", "ζχψωβνμ"),
            AlphaPage::Azerty => ("azertyuiop", "qsdfghjklm", "wxcvbn"),
            AlphaPage::Qwertz => ("qwertzuiop", "asdfghjkl", "yxcvbnm"),
            AlphaPage::Qwerty => ("qwertyuiop", "asdfghjkl", "zxcvbnm"),
        }
    }
}

} // verus!
