use unicode_normalization::UnicodeNormalization;
use vstd::prelude::*;
use crate::text::{ascii_lower_seq, ascii_upper, chars_of, is_ascii_char, string_of};
use vstd::utf8::is_ascii_chars;

verus! {

/// Compatibility decomposition (NFKD) of a text.
pub uninterp spec fn nfkd_of(s: Seq<char>) -> Seq<char>;

/// Canonical decomposition (NFD) of a text.
pub uninterp spec fn nfd_of(s: Seq<char>) -> Seq<char>;

/// Canonical composition (NFC) of a text.
pub uninterp spec fn nfc_of(s: Seq<char>) -> Seq<char>;

/// Whether a character is a Unicode combining mark (general category M).
pub uninterp spec fn combining_mark(c: char) -> bool;

/// Unicode lower-case mapping of a text.
pub uninterp spec fn lower_of(s: Seq<char>) -> Seq<char>;

/// Unicode upper-case mapping of one character.
pub uninterp spec fn upper_char_of(c: char) -> Seq<char>;

/// Relies on `UnicodeNormalization::nfkd` of unicode-normalization: the NFKD form, which
/// leaves ASCII text as it is.
#[verifier::external_body]
pub(crate) fn decompose_compat(s: &str) -> (r: String)
    ensures
        r@ == nfkd_of(s@),
        is_ascii_chars(s@) ==> r@ == s@,
{
    s.nfkd().collect()
}

/// Relies on `UnicodeNormalization::nfd` of unicode-normalization: the NFD form, which leaves
/// ASCII text as it is.
#[verifier::external_body]
pub(crate) fn decompose_canonical(s: &str) -> (r: String)
    ensures
        r@ == nfd_of(s@),
        is_ascii_chars(s@) ==> r@ == s@,
{
    s.nfd().collect()
}

/// Relies on `UnicodeNormalization::nfc` of unicode-normalization: the NFC form, which leaves
/// ASCII text as it is.
#[verifier::external_body]
pub(crate) fn compose_canonical(s: &str) -> (r: String)
    ensures
        r@ == nfc_of(s@),
        is_ascii_chars(s@) ==> r@ == s@,
{
    s.nfc().collect()
}

/// Relies on `unicode_normalization::char::is_combining_mark`; no ASCII character is one.
#[verifier::external_body]
pub(crate) fn is_mark(c: char) -> (r: bool)
    ensures
        r == combining_mark(c),
        is_ascii_char(c) ==> !r,
{
    unicode_normalization::char::is_combining_mark(c)
}

/// Relies on `str::to_lowercase`: the lower-case mapping, which on ASCII text lowers the
/// letters A to Z and keeps every other character.
#[verifier::external_body]
pub(crate) fn lowercase(s: &str) -> (r: String)
    ensures
        r@ == lower_of(s@),
        is_ascii_chars(s@) ==> r@ == ascii_lower_seq(s@),
{
    s.to_lowercase()
}

/// Relies on `char::to_uppercase`: the upper-case mapping of one character, which for an
/// ASCII character is its ASCII upper-case form.
#[verifier::external_body]
pub(crate) fn uppercase_char(c: char) -> (r: String)
    ensures
        r@ == upper_char_of(c),
        is_ascii_char(c) ==> r@ == seq![ascii_upper(c)],
{
    c.to_uppercase().collect()
}

/// Upper-case mapping of one character; for an ASCII character, its ASCII upper-case form.
pub open spec fn upper_first(c: char) -> Seq<char> {
    if is_ascii_char(c) {
        seq![ascii_upper(c)]
    } else {
        upper_char_of(c)
    }
}

/// `s` without its combining marks.
pub open spec fn drop_marks(s: Seq<char>) -> Seq<char>
    decreases s.len(),
{
    if s.len() == 0 {
        s
    } else if combining_mark(s.last()) {
        drop_marks(s.drop_last())
    } else {
        drop_marks(s.drop_last()).push(s.last())
    }
}

/// Accents removed: NFKD, then combining marks dropped. ASCII text is unchanged.
pub open spec fn accent_free(s: Seq<char>) -> Seq<char> {
    if is_ascii_chars(s) {
        s
    } else {
        drop_marks(nfkd_of(s))
    }
}

/// Lower-case mapping; on ASCII text, the ASCII letters lowered.
pub open spec fn lowered(s: Seq<char>) -> Seq<char> {
    if is_ascii_chars(s) {
        ascii_lower_seq(s)
    } else {
        lower_of(s)
    }
}

/// Removes accents: the NFKD form of `value` with its combining marks dropped.
pub fn strip_accents(value: &str) -> (r: Vec<char>)
    ensures
        r@ == accent_free(value@),
{
    let d = decompose_compat(value);
    let cs = chars_of(d.as_str());
    let mut out: Vec<char> = Vec::new();
    let mut i: usize = 0;
    while i < cs.len()
        invariant
            i <= cs.len(),
            cs@ == nfkd_of(value@),
            is_ascii_chars(value@) ==> cs@ == value@,
            out@ == drop_marks(cs@.subrange(0, i as int)),
            is_ascii_chars(value@) ==> out@ == cs@.subrange(0, i as int),
        decreases cs.len() - i,
    {
        let c = cs[i];
        let ghost sub = cs@.subrange(0, i + 1);
        assert(sub.drop_last() =~= cs@.subrange(0, i as int));
        assert(is_ascii_chars(value@) ==> is_ascii_char(cs@[i as int]));
        if !is_mark(c) {
            out.push(c);
        }
        assert(is_ascii_chars(value@) ==> out@ =~= sub);
        i = i + 1;
    }
    assert(cs@.subrange(0, cs@.len() as int) =~= cs@);
    out
}

/// The lower-case mapping of a text given as characters.
pub fn lower_chars(v: &Vec<char>) -> (r: Vec<char>)
    ensures
        r@ == lowered(v@),
{
    let s = string_of(v);
    let l = lowercase(s.as_str());
    chars_of(l.as_str())
}

} // verus!
