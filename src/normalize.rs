use vstd::prelude::*;
use vstd::utf8::is_ascii_chars;
use crate::text::{
    all_words, append_chars, ascii_alnum, ascii_lower, ascii_lower_seq, chars_of,
    collapse_whitespace, collapse_ws, copy_range, is_ascii_alnum, is_ascii_digit, is_ascii_lower,
    is_ascii_upper, is_whitespace, is_word, is_ws, join_with_spaces, join_words,
    lemma_collapse_idempotent, lemma_join_chars, lemma_words_valid, lower_ascii, split_words,
    string_of, to_ascii_lower, words, ws_fold, ws_start,
};
use crate::unicode::{accent_free, lower_chars, lowered, strip_accents, upper_first, uppercase_char};

verus! {

/// What one character becomes in a catalog key: ASCII letters and digits (lowered) and `-`
/// stay, anything else is a space.
pub open spec fn key_char(c: char) -> char {
    if is_ascii_alnum(c) || c == '-' {
        ascii_lower(c)
    } else {
        ' '
    }
}

/// `key_char` applied to each character.
pub open spec fn key_map(s: Seq<char>) -> Seq<char> {
    Seq::new(s.len(), |i: int| key_char(s[i]))
}

/// The catalog key of a name: accents removed, lower-cased, every character other than an
/// ASCII letter, digit or `-` made a space, whitespace collapsed.
pub open spec fn name_key(s: Seq<char>) -> Seq<char> {
    collapse_ws(key_map(lowered(accent_free(s))))
}

/// The characters that a catalog key is made of.
pub open spec fn is_key_char(c: char) -> bool {
    c == ' ' || is_ascii_lower(c) || is_ascii_digit(c) || c == '-'
}

proof fn lemma_fold_chars(s: Seq<char>, p: spec_fn(char) -> bool)
    requires
        forall|k: int| 0 <= k < s.len() ==> p(#[trigger] s[k]),
    ensures
        forall|i: int, k: int|
            0 <= i < ws_fold(ws_start(), s).0.len() && 0 <= k < ws_fold(ws_start(), s).0[i].len()
                ==> p(#[trigger] ws_fold(ws_start(), s).0[i][k]),
        forall|k: int|
            0 <= k < ws_fold(ws_start(), s).1.len() ==> p(#[trigger] ws_fold(ws_start(), s).1[k]),
    decreases s.len(),
{
    if s.len() > 0 {
        let q = s.drop_last();
        assert forall|k: int| 0 <= k < q.len() implies p(#[trigger] q[k]) by {
            assert(q[k] == s[k]);
        }
        lemma_fold_chars(q, p);
        let st = ws_fold(ws_start(), q);
        let c = s.last();
        assert(p(s[s.len() - 1]));
        if !is_ws(c) {
            let w = st.1.push(c);
            assert forall|k: int| 0 <= k < w.len() implies p(#[trigger] w[k]) by {
                if k < st.1.len() {
                    assert(w[k] == st.1[k]);
                }
            }
        } else if st.1.len() > 0 {
            let t = st.0.push(st.1);
            assert forall|i: int, k: int| 0 <= i < t.len() && 0 <= k < t[i].len() implies p(
                #[trigger] t[i][k],
            ) by {
                if i < st.0.len() {
                    assert(t[i] == st.0[i]);
                }
            }
        }
    }
}

/// The characters of a collapsed text come from the text, or are spaces.
pub proof fn lemma_collapse_chars(s: Seq<char>, p: spec_fn(char) -> bool)
    requires
        p(' '),
        forall|k: int| 0 <= k < s.len() ==> p(#[trigger] s[k]),
    ensures
        forall|k: int| 0 <= k < collapse_ws(s).len() ==> p(#[trigger] collapse_ws(s)[k]),
{
    lemma_fold_chars(s, p);
    let st = ws_fold(ws_start(), s);
    let ws = words(s);
    assert forall|i: int, k: int| 0 <= i < ws.len() && 0 <= k < ws[i].len() implies p(
        #[trigger] ws[i][k],
    ) by {
        if i < st.0.len() {
            assert(ws[i] == st.0[i]);
        } else {
            assert(ws[i] == st.1);
        }
    }
    lemma_join_chars(ws, p);
}

/// A catalog key is made of lower-case ASCII letters, digits, `-` and spaces.
pub proof fn lemma_name_key_chars(s: Seq<char>)
    ensures
        forall|k: int| 0 <= k < name_key(s).len() ==> is_key_char(#[trigger] name_key(s)[k]),
{
    let m = key_map(lowered(accent_free(s)));
    let p = |c: char| is_key_char(c);
    assert forall|k: int| 0 <= k < m.len() implies p(#[trigger] m[k]) by {
        let c = lowered(accent_free(s))[k];
        assert(m[k] == key_char(c));
        if is_ascii_upper(c) {
            assert(ascii_lower(c) == ((c as u8) + 32) as char);
        }
    }
    lemma_collapse_chars(m, p);
}

/// Normalizing a catalog key again leaves it unchanged.
pub proof fn lemma_normalize_idempotent(s: Seq<char>)
    ensures
        name_key(name_key(s)) == name_key(s),
{
    let t = name_key(s);
    lemma_name_key_chars(s);
    assert(is_ascii_chars(t)) by {
        assert forall|i: int| 0 <= i < t.len() implies '\0' <= #[trigger] t[i] <= '\u{7f}' by {
            assert(is_key_char(t[i]));
        }
    }
    assert(accent_free(t) == t);
    assert(lowered(t) =~= t) by {
        assert forall|i: int| 0 <= i < t.len() implies #[trigger] ascii_lower_seq(t)[i] == t[i] by {
            assert(is_key_char(t[i]));
        }
    }
    assert(key_map(t) =~= t) by {
        assert forall|i: int| 0 <= i < t.len() implies #[trigger] key_map(t)[i] == t[i] by {
            assert(is_key_char(t[i]));
        }
    }
    lemma_collapse_idempotent(key_map(lowered(accent_free(s))));
}

/// `key_map` on characters.
fn map_key_chars(v: &Vec<char>) -> (r: Vec<char>)
    ensures
        r@ == key_map(v@),
{
    let mut r: Vec<char> = Vec::new();
    let mut i: usize = 0;
    while i < v.len()
        invariant
            i <= v.len(),
            r@ =~= key_map(v@.subrange(0, i as int)),
        decreases v.len() - i,
    {
        let c = v[i];
        if ascii_alnum(c) || c == '-' {
            r.push(to_ascii_lower(c));
        } else {
            r.push(' ');
        }
        i = i + 1;
    }
    assert(v@.subrange(0, v@.len() as int) =~= v@);
    r
}

/// The catalog key of `value` (the form stored in `name_normalized`).
pub fn normalize_name(value: &str) -> (r: String)
    ensures
        r@ == name_key(value@),
{
    let stripped = strip_accents(value);
    let low = lower_chars(&stripped);
    let mapped = map_key_chars(&low);
    let c = collapse_whitespace(&mapped);
    string_of(&c)
}

/// What one character becomes in a comparison key: ASCII letters and digits (lowered) stay,
/// anything else is a space.
pub open spec fn compare_char(c: char) -> char {
    if is_ascii_alnum(c) {
        ascii_lower(c)
    } else {
        ' '
    }
}

/// The comparison key of a text: accents removed, ASCII letters and digits kept (lowered),
/// everything else a space, whitespace collapsed.
pub open spec fn compare_key(s: Seq<char>) -> Seq<char> {
    collapse_ws(Seq::new(accent_free(s).len(), |i: int| compare_char(accent_free(s)[i])))
}

/// The comparison key of `value`.
pub fn normalize_for_compare(value: &str) -> (r: Vec<char>)
    ensures
        r@ == compare_key(value@),
{
    let stripped = strip_accents(value);
    let mut m: Vec<char> = Vec::new();
    let mut i: usize = 0;
    while i < stripped.len()
        invariant
            i <= stripped.len(),
            m@ =~= Seq::new(i as nat, |k: int| compare_char(stripped@[k])),
        decreases stripped.len() - i,
    {
        let c = stripped[i];
        if ascii_alnum(c) {
            m.push(to_ascii_lower(c));
        } else {
            m.push(' ');
        }
        i = i + 1;
    }
    collapse_whitespace(&m)
}

/// The sets of characters that are trimmed from the ends of a path component.
pub enum TrimSet {
    Whitespace,
    Dots,
    DotsAndWhitespace,
    Commas,
}

/// Whether a character belongs to a trim set.
pub open spec fn in_trim_set(k: TrimSet, c: char) -> bool {
    match k {
        TrimSet::Whitespace => is_ws(c),
        TrimSet::Dots => c == '.',
        TrimSet::DotsAndWhitespace => c == '.' || is_ws(c),
        TrimSet::Commas => c == ',',
    }
}

/// `s` without the leading characters of the set.
pub open spec fn trim_start(s: Seq<char>, k: TrimSet) -> Seq<char>
    decreases s.len(),
{
    if s.len() > 0 && in_trim_set(k, s[0]) {
        trim_start(s.drop_first(), k)
    } else {
        s
    }
}

/// `s` without the trailing characters of the set.
pub open spec fn trim_end(s: Seq<char>, k: TrimSet) -> Seq<char>
    decreases s.len(),
{
    if s.len() > 0 && in_trim_set(k, s.last()) {
        trim_end(s.drop_last(), k)
    } else {
        s
    }
}

/// `s` without the characters of the set at either end.
pub open spec fn trim_both(s: Seq<char>, k: TrimSet) -> Seq<char> {
    trim_end(trim_start(s, k), k)
}

fn in_set(k: &TrimSet, c: char) -> (r: bool)
    ensures
        r == in_trim_set(*k, c),
{
    match k {
        TrimSet::Whitespace => is_whitespace(c),
        TrimSet::Dots => c == '.',
        TrimSet::DotsAndWhitespace => c == '.' || is_whitespace(c),
        TrimSet::Commas => c == ',',
    }
}

/// `v` without the characters of the set at either end.
pub fn trim_chars(v: &Vec<char>, k: TrimSet) -> (r: Vec<char>)
    ensures
        r@ == trim_both(v@, k),
        exists|a: int, b: int| 0 <= a <= b <= v@.len() && r@ == v@.subrange(a, b),
{
    let n = v.len();
    let mut i: usize = 0;
    assert(v@.subrange(0, n as int) =~= v@);
    while i < n && in_set(&k, v[i])
        invariant
            n == v.len(),
            i <= n,
            trim_start(v@, k) == trim_start(v@.subrange(i as int, n as int), k),
        decreases n - i,
    {
        assert(v@.subrange(i as int, n as int).drop_first() =~= v@.subrange(i + 1, n as int));
        i = i + 1;
    }
    assert(trim_start(v@, k) =~= v@.subrange(i as int, n as int));
    let mut j: usize = n;
    while j > i && in_set(&k, v[j - 1])
        invariant
            n == v.len(),
            i <= j <= n,
            trim_end(v@.subrange(i as int, n as int), k) == trim_end(
                v@.subrange(i as int, j as int),
                k,
            ),
        decreases j,
    {
        assert(v@.subrange(i as int, j as int).drop_last() =~= v@.subrange(i as int, j - 1));
        j = j - 1;
    }
    assert(trim_end(v@.subrange(i as int, j as int), k) =~= v@.subrange(i as int, j as int));
    let mut r: Vec<char> = Vec::new();
    let mut p: usize = i;
    while p < j
        invariant
            i <= p <= j <= n,
            n == v.len(),
            r@ =~= v@.subrange(i as int, p as int),
        decreases j - p,
    {
        r.push(v[p]);
        p = p + 1;
    }
    r
}

/// Whether a character may not stand in a file or directory name.
pub open spec fn is_forbidden_char(c: char) -> bool {
    c == '<' || c == '>' || c == ':' || c == '"' || c == '/' || c == '\\' || c == '|' || c == '?'
        || c == '*'
}

/// Whether a character may not stand in a file or directory name.
pub fn forbidden_char(c: char) -> (r: bool)
    ensures
        r == is_forbidden_char(c),
{
    c == '<' || c == '>' || c == ':' || c == '"' || c == '/' || c == '\\' || c == '|' || c == '?'
        || c == '*'
}

/// Whether a lower-case name is reserved by the platform (`con`, `prn`, `aux`, `nul`,
/// `com1` to `com9`, `lpt1` to `lpt9`).
pub open spec fn is_reserved(s: Seq<char>) -> bool {
    (s.len() == 3 && ((s[0] == 'c' && s[1] == 'o' && s[2] == 'n') || (s[0] == 'p' && s[1] == 'r'
        && s[2] == 'n') || (s[0] == 'a' && s[1] == 'u' && s[2] == 'x') || (s[0] == 'n' && s[1]
        == 'u' && s[2] == 'l'))) || (s.len() == 4 && ((s[0] == 'c' && s[1] == 'o' && s[2] == 'm')
        || (s[0] == 'l' && s[1] == 'p' && s[2] == 't')) && '1' <= s[3] && s[3] <= '9')
}

/// Whether a lower-case name is reserved by the platform.
pub fn reserved_name(s: &Vec<char>) -> (r: bool)
    ensures
        r == is_reserved(s@),
{
    (s.len() == 3 && ((s[0] == 'c' && s[1] == 'o' && s[2] == 'n') || (s[0] == 'p' && s[1] == 'r'
        && s[2] == 'n') || (s[0] == 'a' && s[1] == 'u' && s[2] == 'x') || (s[0] == 'n' && s[1]
        == 'u' && s[2] == 'l'))) || (s.len() == 4 && ((s[0] == 'c' && s[1] == 'o' && s[2] == 'm')
        || (s[0] == 'l' && s[1] == 'p' && s[2] == 't')) && '1' <= s[3] && s[3] <= '9')
}

/// The one-character text `_`.
pub open spec fn underscore() -> Seq<char> {
    seq!['_']
}

/// The characters of `s`, each forbidden one replaced by `_`.
pub open spec fn replace_forbidden(s: Seq<char>) -> Seq<char> {
    Seq::new(s.len(), |i: int| if is_forbidden_char(s[i]) { '_' } else { s[i] })
}

/// The component before the reserved-name check: dots and whitespace trimmed from both ends,
/// forbidden characters replaced, whitespace trimmed again.
pub open spec fn cleaned_component(s: Seq<char>) -> Seq<char> {
    trim_both(replace_forbidden(trim_both(s, TrimSet::DotsAndWhitespace)), TrimSet::Whitespace)
}

/// What the reserved-name check looks at: the cleaned component trimmed, dot-trimmed and
/// lowered.
pub open spec fn reserved_probe(s: Seq<char>) -> Seq<char> {
    ascii_lower_seq(trim_both(trim_both(cleaned_component(s), TrimSet::Whitespace), TrimSet::Dots))
}

/// A string made safe to stand as one path component.
pub open spec fn sanitized(s: Seq<char>) -> Seq<char> {
    if trim_both(s, TrimSet::DotsAndWhitespace).len() == 0 || cleaned_component(s).len() == 0 {
        underscore()
    } else if is_reserved(reserved_probe(s)) {
        underscore() + cleaned_component(s)
    } else {
        cleaned_component(s)
    }
}


proof fn lemma_trim_start_shape(s: Seq<char>, k: TrimSet)
    ensures
        trim_start(s, k).len() == 0 || !in_trim_set(k, trim_start(s, k)[0]),
        exists|a: int| 0 <= a <= s.len() && trim_start(s, k) == s.subrange(a, s.len() as int),
    decreases s.len(),
{
    if s.len() > 0 && in_trim_set(k, s[0]) {
        lemma_trim_start_shape(s.drop_first(), k);
        let a = choose|a: int|
            0 <= a <= s.drop_first().len() && trim_start(s.drop_first(), k) == s.drop_first().subrange(
                a,
                s.drop_first().len() as int,
            );
        assert(s.drop_first().subrange(a, s.drop_first().len() as int) =~= s.subrange(
            a + 1,
            s.len() as int,
        ));
    } else {
        assert(s.subrange(0, s.len() as int) =~= s);
    }
}

proof fn lemma_trim_end_shape(s: Seq<char>, k: TrimSet)
    ensures
        trim_end(s, k).len() == 0 || !in_trim_set(k, trim_end(s, k).last()),
        exists|b: int| 0 <= b <= s.len() && trim_end(s, k) == s.subrange(0, b),
    decreases s.len(),
{
    if s.len() > 0 && in_trim_set(k, s.last()) {
        lemma_trim_end_shape(s.drop_last(), k);
        let b = choose|b: int|
            0 <= b <= s.drop_last().len() && trim_end(s.drop_last(), k) == s.drop_last().subrange(0, b);
        assert(s.drop_last().subrange(0, b) =~= s.subrange(0, b));
    } else {
        assert(s.subrange(0, s.len() as int) =~= s);
    }
}

/// A text whose ends are outside a trim set is its own trim.
proof fn lemma_trim_keeps(s: Seq<char>, k: TrimSet)
    requires
        s.len() == 0 || (!in_trim_set(k, s[0]) && !in_trim_set(k, s.last())),
    ensures
        trim_both(s, k) == s,
{
}

/// The ends of a trimmed text are outside the trim set, and each of its characters is one of
/// the text's.
proof fn lemma_trim_shape(s: Seq<char>, k: TrimSet)
    ensures
        trim_both(s, k).len() == 0 || (!in_trim_set(k, trim_both(s, k)[0]) && !in_trim_set(
            k,
            trim_both(s, k).last(),
        )),
        exists|a: int, b: int| 0 <= a <= b <= s.len() && trim_both(s, k) == s.subrange(a, b),
{
    lemma_trim_start_shape(s, k);
    let t = trim_start(s, k);
    let a = choose|a: int| 0 <= a <= s.len() && t == s.subrange(a, s.len() as int);
    lemma_trim_end_shape(t, k);
    let b = choose|b: int| 0 <= b <= t.len() && trim_end(t, k) == t.subrange(0, b);
    assert(t.subrange(0, b) =~= s.subrange(a, a + b));
    if trim_end(t, k).len() > 0 {
        assert(trim_end(t, k)[0] == t[0]);
    }
}

/// Sanitizing a sanitized component leaves it unchanged.
pub proof fn lemma_sanitize_idempotent(s: Seq<char>)
    ensures
        sanitized(sanitized(s)) == sanitized(s),
{
    let u = underscore();
    assert(trim_both(u, TrimSet::DotsAndWhitespace) == u);
    assert(replace_forbidden(u) =~= u);
    assert(trim_both(u, TrimSet::Whitespace) == u);
    assert(cleaned_component(u) == u);
    assert(trim_both(u, TrimSet::Dots) == u);
    assert(!is_reserved(reserved_probe(u)));
    let t1 = trim_both(s, TrimSet::DotsAndWhitespace);
    if t1.len() == 0 || cleaned_component(s).len() == 0 {
        return;
    }
    lemma_trim_shape(s, TrimSet::DotsAndWhitespace);
    let m = replace_forbidden(t1);
    assert(m[0] == '_' || m[0] == t1[0]);
    assert(m.last() == '_' || m.last() == t1.last());
    lemma_trim_keeps(m, TrimSet::Whitespace);
    let c = cleaned_component(s);
    assert(c == m);
    assert(forall|i: int| 0 <= i < c.len() ==> !is_forbidden_char(#[trigger] c[i]));
    lemma_trim_keeps(c, TrimSet::DotsAndWhitespace);
    assert(replace_forbidden(c) =~= c);
    lemma_trim_keeps(c, TrimSet::Whitespace);
    assert(cleaned_component(c) == c);
    assert(reserved_probe(c) == reserved_probe(s));
    if is_reserved(reserved_probe(s)) {
        let r = u + c;
        assert(r[0] == '_');
        assert(r.last() == c.last());
        lemma_trim_keeps(r, TrimSet::DotsAndWhitespace);
        assert(replace_forbidden(r) =~= r) by {
            assert forall|i: int| 0 <= i < r.len() implies !is_forbidden_char(#[trigger] r[i]) by {
                if i > 0 {
                    assert(r[i] == c[i - 1]);
                }
            }
        }
        lemma_trim_keeps(r, TrimSet::Whitespace);
        assert(cleaned_component(r) == r);
        lemma_trim_keeps(r, TrimSet::Dots);
        assert(ascii_lower_seq(r)[0] == '_');
        assert(!is_reserved(reserved_probe(r)));
    }
}

/// A sanitized component starts with neither a dot nor whitespace, and a name that is
/// reserved once trimmed of dots and whitespace becomes `_` followed by that trimmed name.
pub proof fn lemma_sanitized_shape(s: Seq<char>)
    ensures
        sanitized(s).len() > 0,
        sanitized(s)[0] != '.' && !is_ws(sanitized(s)[0]),
        is_reserved(ascii_lower_seq(trim_both(s, TrimSet::DotsAndWhitespace))) ==> sanitized(s)
            == underscore() + trim_both(s, TrimSet::DotsAndWhitespace),
{
    let t1 = trim_both(s, TrimSet::DotsAndWhitespace);
    lemma_trim_shape(s, TrimSet::DotsAndWhitespace);
    if t1.len() == 0 {
        assert(!is_reserved(ascii_lower_seq(t1)));
        return;
    }
    let m = replace_forbidden(t1);
    assert(m[0] == '_' || m[0] == t1[0]);
    assert(m.last() == '_' || m.last() == t1.last());
    lemma_trim_keeps(m, TrimSet::Whitespace);
    let c = cleaned_component(s);
    assert(c == m);
    if is_reserved(ascii_lower_seq(t1)) {
        let l = ascii_lower_seq(t1);
        assert forall|i: int| 0 <= i < t1.len() implies is_ascii_alnum(#[trigger] t1[i]) by {
            assert(l[i] == ascii_lower(t1[i]));
            assert(is_ascii_alnum(l[i]));
        }
        assert(m =~= t1);
        lemma_trim_keeps(c, TrimSet::Whitespace);
        lemma_trim_keeps(c, TrimSet::Dots);
        assert(reserved_probe(s) == l);
    }
}

/// Makes `value` safe as one path component: never empty, no character of
/// `< > : " / \ | ? *`, and a platform-reserved name gets a leading `_`.
pub fn sanitize_component(value: &str) -> (r: String)
    ensures
        r@ == sanitized(value@),
        r@.len() > 0,
        forall|i: int| 0 <= i < r@.len() ==> !is_forbidden_char(#[trigger] r@[i]),
        is_reserved(reserved_probe(value@)) ==> r@[0] == '_',
        r@[0] != '.' && !is_ws(r@[0]),
        is_reserved(ascii_lower_seq(trim_both(value@, TrimSet::DotsAndWhitespace))) ==> r@
            == underscore() + trim_both(value@, TrimSet::DotsAndWhitespace),
{
    proof {
        lemma_sanitized_shape(value@);
    }
    let v = chars_of(value);
    let t = trim_chars(&v, TrimSet::DotsAndWhitespace);
    let mut u: Vec<char> = vec!['_'];
    proof {
        assert(u@ =~= underscore());
    }
    if t.len() == 0 {
        return string_of(&u);
    }
    let mut m: Vec<char> = Vec::new();
    let mut i: usize = 0;
    while i < t.len()
        invariant
            i <= t.len(),
            m@ =~= replace_forbidden(t@.subrange(0, i as int)),
        decreases t.len() - i,
    {
        if forbidden_char(t[i]) {
            m.push('_');
        } else {
            m.push(t[i]);
        }
        i = i + 1;
    }
    assert(t@.subrange(0, t@.len() as int) =~= t@);
    let cleaned = trim_chars(&m, TrimSet::Whitespace);
    assert(forall|k: int| 0 <= k < m@.len() ==> !is_forbidden_char(#[trigger] m@[k]));
    assert(forall|k: int| 0 <= k < cleaned@.len() ==> !is_forbidden_char(#[trigger] cleaned@[k]));
    if cleaned.len() == 0 {
        return string_of(&u);
    }
    let probe = lower_ascii(&trim_chars(&trim_chars(&cleaned, TrimSet::Whitespace), TrimSet::Dots));
    if reserved_name(&probe) {
        append_chars(&mut u, &cleaned);
        assert(u@ =~= underscore() + cleaned@);
        string_of(&u)
    } else {
        string_of(&cleaned)
    }
}

/// A word with its first character upper-cased and the rest lower-cased.
pub open spec fn cap_word(w: Seq<char>) -> Seq<char> {
    upper_first(w[0]) + lowered(w.drop_first())
}

/// Each word capitalized, words joined by single spaces.
pub open spec fn capitalized(s: Seq<char>) -> Seq<char> {
    join_words(Seq::new(words(s).len(), |i: int| cap_word(words(s)[i])))
}

fn cap_word_exec(w: &Vec<char>) -> (r: Vec<char>)
    requires
        w@.len() > 0,
    ensures
        r@ == cap_word(w@),
{
    let up = uppercase_char(w[0]);
    let mut r = chars_of(up.as_str());
    let mut rest: Vec<char> = Vec::new();
    let mut i: usize = 1;
    while i < w.len()
        invariant
            1 <= i <= w@.len(),
            rest@ =~= w@.subrange(1, i as int),
        decreases w@.len() - i,
    {
        rest.push(w[i]);
        i = i + 1;
    }
    assert(rest@ =~= w@.drop_first());
    let low = lower_chars(&rest);
    append_chars(&mut r, &low);
    r
}

/// Capitalizes each word of `value` (first character upper-case, the rest lower-case) and
/// joins the words by single spaces.
pub fn capitalize_words(value: &Vec<char>) -> (r: Vec<char>)
    ensures
        r@ == capitalized(value@),
{
    let ws = split_words(value);
    proof {
        lemma_words_valid(value@);
    }
    let mut caps: Vec<Vec<char>> = Vec::new();
    let mut i: usize = 0;
    while i < ws.len()
        invariant
            i <= ws@.len(),
            ws.deep_view() == words(value@),
            all_words(ws.deep_view()),
            caps.deep_view() =~= Seq::new(i as nat, |k: int| cap_word(words(value@)[k])),
        decreases ws@.len() - i,
    {
        assert(ws@[i as int].deep_view() =~= ws@[i as int]@);
        assert(ws.deep_view()[i as int] == ws@[i as int]@);
        assert(is_word(ws.deep_view()[i as int]));
        let c = cap_word_exec(&ws[i]);
        assert(c.deep_view() =~= c@);
        let ghost d = caps.deep_view();
        caps.push(c);
        assert(caps.deep_view() =~= d.push(cap_word(words(value@)[i as int])));
        i = i + 1;
    }
    join_with_spaces(&caps)
}

/// What one character becomes before a display name is split: typographic apostrophes become
/// `'`, `_` and `-` become spaces.
pub open spec fn display_char(c: char) -> char {
    if c == '\u{2019}' || c == '`' || c == '\u{b4}' {
        '\''
    } else if c == '_' || c == '-' {
        ' '
    } else {
        c
    }
}

/// Whether a character is an ASCII letter.
pub open spec fn is_ascii_alpha(c: char) -> bool {
    ('a' <= c && c <= 'z') || ('A' <= c && c <= 'Z')
}

/// Whether the ASCII letters of `s` exist and are all upper-case.
pub open spec fn shouting(s: Seq<char>) -> bool {
    (exists|i: int| 0 <= i < s.len() && is_ascii_alpha(#[trigger] s[i])) && (forall|i: int|
        0 <= i < s.len() && is_ascii_alpha(#[trigger] s[i]) ==> is_ascii_upper(s[i]))
}

/// The display name before it is split: accents removed, apostrophes unified, `_` and `-`
/// made spaces, whitespace collapsed, and lower-cased when all its letters are capitals.
pub open spec fn display_base(s: Seq<char>) -> Seq<char> {
    let prep = collapse_ws(Seq::new(accent_free(s).len(), |i: int| display_char(accent_free(s)[i])));
    if shouting(prep) {
        lowered(prep)
    } else {
        prep
    }
}

/// Index of the first `c` in `s`, or -1.
pub open spec fn first_index(s: Seq<char>, c: char) -> int
    decreases s.len(),
{
    if s.len() == 0 {
        -1
    } else if first_index(s.drop_last(), c) >= 0 {
        first_index(s.drop_last(), c)
    } else if s.last() == c {
        s.len() - 1
    } else {
        -1
    }
}

/// (first names, surname) of a display base: around the first comma ("Last, First"), else
/// the last word is the surname.
pub open spec fn split_display(base: Seq<char>) -> (Seq<char>, Seq<char>) {
    let k = first_index(base, ',');
    if k >= 0 {
        (
            trim_both(base.subrange(k + 1, base.len() as int), TrimSet::Whitespace),
            trim_both(base.subrange(0, k), TrimSet::Whitespace),
        )
    } else if words(base).len() >= 2 {
        (join_words(words(base).drop_last()), words(base).last())
    } else if words(base).len() == 1 {
        (words(base)[0], Seq::empty())
    } else {
        (Seq::empty(), Seq::empty())
    }
}

/// `Last, First` display form of an author name; `_` for a blank name.
pub open spec fn author_display(s: Seq<char>) -> Seq<char> {
    if trim_both(s, TrimSet::Whitespace).len() == 0 {
        underscore()
    } else {
        let (first, last) = split_display(display_base(s));
        let fc = capitalized(first);
        let lc = capitalized(last);
        if lc.len() > 0 {
            let v = trim_both(
                trim_both(lc + seq![',', ' '] + fc, TrimSet::Whitespace),
                TrimSet::Commas,
            );
            if v.len() == 0 {
                lc
            } else {
                v
            }
        } else {
            fc
        }
    }
}

pub(crate) fn find_first(s: &Vec<char>, c: char) -> (r: Option<usize>)
    ensures
        r is Some <==> first_index(s@, c) >= 0,
        r is Some ==> r.unwrap() == first_index(s@, c) && r.unwrap() < s@.len(),
{
    let mut i: usize = 0;
    while i < s.len()
        invariant
            i <= s@.len(),
            first_index(s@.subrange(0, i as int), c) == -1,
        decreases s@.len() - i,
    {
        assert(s@.subrange(0, i + 1).drop_last() =~= s@.subrange(0, i as int));
        if s[i] == c {
            proof {
                lemma_first_index_prefix(s@, c, i as int + 1);
            }
            return Some(i);
        }
        i = i + 1;
    }
    assert(s@.subrange(0, s@.len() as int) =~= s@);
    None
}

proof fn lemma_first_index_prefix(s: Seq<char>, c: char, n: int)
    requires
        0 < n <= s.len(),
        first_index(s.subrange(0, n), c) >= 0,
    ensures
        first_index(s, c) == first_index(s.subrange(0, n), c),
    decreases s.len() - n,
{
    if n < s.len() {
        assert(s.subrange(0, n + 1).drop_last() =~= s.subrange(0, n));
        lemma_first_index_prefix(s, c, n + 1);
    } else {
        assert(s.subrange(0, n) =~= s);
    }
}


fn is_shouting(s: &Vec<char>) -> (r: bool)
    ensures
        r == shouting(s@),
{
    let mut any = false;
    let mut all = true;
    let mut i: usize = 0;
    while i < s.len()
        invariant
            i <= s@.len(),
            any == (exists|k: int| 0 <= k < i && is_ascii_alpha(#[trigger] s@[k])),
            all == (forall|k: int| 0 <= k < i && is_ascii_alpha(#[trigger] s@[k]) ==> is_ascii_upper(s@[k])),
        decreases s@.len() - i,
    {
        let c = s[i];
        let alpha = ('a' <= c && c <= 'z') || ('A' <= c && c <= 'Z');
        if alpha {
            any = true;
            if !('A' <= c && c <= 'Z') {
                all = false;
            }
        }
        i = i + 1;
    }
    any && all
}

/// The display form `Last, First` of an author directory name: accents removed, apostrophes
/// unified, `_` and `-` as spaces, a name in all capitals lowered, split around the first
/// comma or before the last word, each word capitalized. A blank name gives `_`.
pub fn normalize_author_display(name: &str) -> (r: String)
    ensures
        r@ == author_display(name@),
{
    let raw = chars_of(name);
    if trim_chars(&raw, TrimSet::Whitespace).len() == 0 {
        let u: Vec<char> = vec!['_'];
        assert(u@ =~= underscore());
        return string_of(&u);
    }
    let stripped = strip_accents(name);
    let mut m: Vec<char> = Vec::new();
    let mut i: usize = 0;
    while i < stripped.len()
        invariant
            i <= stripped@.len(),
            m@ =~= Seq::new(i as nat, |k: int| display_char(stripped@[k])),
        decreases stripped@.len() - i,
    {
        let c = stripped[i];
        let d = if c == '\u{2019}' || c == '`' || c == '\u{b4}' {
            '\''
        } else if c == '_' || c == '-' {
            ' '
        } else {
            c
        };
        m.push(d);
        i = i + 1;
    }
    let prep = collapse_whitespace(&m);
    let base = if is_shouting(&prep) {
        lower_chars(&prep)
    } else {
        prep
    };
    let ghost parts = split_display(base@);
    let (first, last) = match find_first(&base, ',') {
        Some(k) => {
            let n = base.len();
            let l = trim_chars(&copy_range(&base, 0, k), TrimSet::Whitespace);
            let f = trim_chars(&copy_range(&base, k + 1, n), TrimSet::Whitespace);
            (f, l)
        },
        None => {
            let toks = split_words(&base);
            if toks.len() >= 2 {
                let mut front: Vec<Vec<char>> = Vec::new();
                let mut j: usize = 0;
                while j < toks.len() - 1
                    invariant
                        toks@.len() >= 2,
                        j <= toks@.len() - 1,
                        front.deep_view() =~= toks.deep_view().subrange(0, j as int),
                    decreases toks@.len() - 1 - j,
                {
                    let w = toks[j].clone();
                    assert(w.deep_view() =~= w@);
                    assert(toks@[j as int].deep_view() =~= toks@[j as int]@);
                    let ghost d = front.deep_view();
                    front.push(w);
                    assert(front.deep_view() =~= d.push(toks.deep_view()[j as int]));
                    j = j + 1;
                }
                assert(toks.deep_view().subrange(0, toks@.len() - 1) =~= toks.deep_view().drop_last());
                let lastw = toks[toks.len() - 1].clone();
                assert(toks@[toks@.len() - 1].deep_view() =~= toks@[toks@.len() - 1]@);
                (join_with_spaces(&front), lastw)
            } else if toks.len() == 1 {
                assert(toks@[0].deep_view() =~= toks@[0]@);
                (toks[0].clone(), Vec::new())
            } else {
                (Vec::new(), Vec::new())
            }
        },
    };
    assert(first@ =~= parts.0);
    assert(last@ =~= parts.1);
    let fc = capitalize_words(&first);
    let lc = capitalize_words(&last);
    if lc.len() > 0 {
        let mut joined = lc.clone();
        joined.push(',');
        joined.push(' ');
        append_chars(&mut joined, &fc);
        assert(joined@ =~= lc@ + seq![',', ' '] + fc@);
        let v = trim_chars(&trim_chars(&joined, TrimSet::Whitespace), TrimSet::Commas);
        if v.len() == 0 {
            string_of(&lc)
        } else {
            string_of(&v)
        }
    } else {
        string_of(&fc)
    }
}

/// The name an author directory is renamed to before grouping.
pub open spec fn target_dir_name_of(name: Seq<char>) -> Seq<char> {
    sanitized(author_display(name))
}

/// The name an author directory is renamed to before grouping: its display form made safe as
/// a path component.
pub fn target_dir_name(name: &str) -> (r: String)
    ensures
        r@ == target_dir_name_of(name@),
{
    let d = normalize_author_display(name);
    sanitize_component(d.as_str())
}

} // verus!
