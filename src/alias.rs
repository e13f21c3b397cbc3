use vstd::prelude::*;
use vstd::utf8::encode_utf8;
use crate::normalize::{
    capitalize_words, capitalized, first_index, find_first, forbidden_char, is_forbidden_char,
    replace_forbidden, trim_both, trim_chars, trim_end, trim_start, TrimSet,
};
use crate::replace::{regex_replace_all, regex_replaced};
use crate::resolve::frac_millionths;
use crate::score::{Frac, Ratio};
use crate::sets::{common, count_common, distinct, distinct_items, lemma_common_bounded, lemma_common_symmetric, lemma_distinct};
use crate::text::{
    copy_range, lower_ascii, append_chars, ascii_alnum, chars_of, collapse_whitespace, collapse_ws, is_ascii_alnum,
    is_whitespace, is_ws, join_with_spaces, join_words, split_words, string_of, words,
};
use crate::unicode::{accent_free, decompose_compat, nfkd_of, strip_accents};

verus! {

/// `s` itself when it is at most `max` bytes long; else its first `max` characters and `…`.
pub open spec fn truncated(s: Seq<char>, max: nat) -> Seq<char> {
    if encode_utf8(s).len() <= max {
        s
    } else if s.len() <= max {
        s + seq!['\u{2026}']
    } else {
        s.subrange(0, max as int) + seq!['\u{2026}']
    }
}

/// Shortens a text for display.
pub fn truncate(s: &str, max: usize) -> (r: String)
    ensures
        r@ == truncated(s@, max as nat),
{
    if s.as_bytes().len() <= max {
        return s.to_owned();
    }
    let v = chars_of(s);
    let mut out: Vec<char> = Vec::new();
    let mut i: usize = 0;
    while i < v.len() && i < max
        invariant
            i <= v@.len(),
            i <= max,
            out@ =~= v@.subrange(0, i as int),
        decreases v@.len() - i,
    {
        out.push(v[i]);
        i = i + 1;
    }
    out.push('\u{2026}');
    proof {
        if v@.len() <= max {
            assert(v@.subrange(0, v@.len() as int) =~= v@);
        }
    }
    string_of(&out)
}

/// A directory name made safe: trimmed, forbidden characters replaced by `_`; empty when
/// the name is blank.
pub open spec fn safe_dir_name(s: Seq<char>) -> Seq<char> {
    replace_forbidden(trim_both(s, TrimSet::Whitespace))
}

/// A directory name made safe: trimmed, forbidden characters replaced by `_`.
pub fn sanitize_dir_name(name: &str) -> (r: String)
    ensures
        r@ == safe_dir_name(name@),
        forall|i: int| 0 <= i < r@.len() ==> !is_forbidden_char(#[trigger] r@[i]),
{
    let t = trim_chars(&chars_of(name), TrimSet::Whitespace);
    let mut out: Vec<char> = Vec::new();
    let mut i: usize = 0;
    while i < t.len()
        invariant
            i <= t@.len(),
            out@ =~= replace_forbidden(t@.subrange(0, i as int)),
        decreases t@.len() - i,
    {
        if forbidden_char(t[i]) {
            out.push('_');
        } else {
            out.push(t[i]);
        }
        i = i + 1;
    }
    assert(t@.subrange(0, t@.len() as int) =~= t@);
    string_of(&out)
}

/// `Last, First` from given and family names, each without accents, trimmed and
/// capitalized; only the non-empty one when the other is empty.
pub open spec fn author_dir_name_of(first: Seq<char>, last: Seq<char>) -> Seq<char> {
    let f = capitalized(trim_both(accent_free(first), TrimSet::Whitespace));
    let l = capitalized(trim_both(accent_free(last), TrimSet::Whitespace));
    if l.len() > 0 && f.len() > 0 {
        l + seq![',', ' '] + f
    } else if l.len() > 0 {
        l
    } else {
        f
    }
}

/// `Last, First` from given and family names.
pub fn format_author_dir(first: &str, last: &str) -> (r: String)
    ensures
        r@ == author_dir_name_of(first@, last@),
{
    let f = capitalize_words(&trim_chars(&strip_accents(first), TrimSet::Whitespace));
    let l = capitalize_words(&trim_chars(&strip_accents(last), TrimSet::Whitespace));
    if l.len() > 0 && f.len() > 0 {
        let mut v = l;
        v.push(',');
        v.push(' ');
        append_chars(&mut v, &f);
        string_of(&v)
    } else if l.len() > 0 {
        string_of(&l)
    } else {
        string_of(&f)
    }
}

/// (first, last) for a folder: from a local `Last, First` name when both parts are there,
/// else from the label, whose last word is the surname.
pub open spec fn first_last_of(local: Seq<char>, label: Seq<char>) -> (Seq<char>, Seq<char>) {
    let k = first_index(local, ',');
    let last = trim_both(local.subrange(0, k), TrimSet::Whitespace);
    let first = trim_both(local.subrange(k + 1, local.len() as int), TrimSet::Whitespace);
    if k >= 0 && last.len() > 0 && first.len() > 0 {
        (first, last)
    } else if words(label).len() >= 2 {
        (join_words(words(label).drop_last()), words(label).last())
    } else {
        (label, Seq::empty())
    }
}


/// The words before the last one, joined, and the last one.
fn front_and_last(ws: &Vec<Vec<char>>) -> (r: (Vec<char>, Vec<char>))
    requires
        ws@.len() >= 2,
    ensures
        r.0@ == join_words(ws.deep_view().drop_last()),
        r.1@ == ws.deep_view().last(),
{
    let mut front: Vec<Vec<char>> = Vec::new();
    let mut j: usize = 0;
    while j < ws.len() - 1
        invariant
            ws@.len() >= 2,
            j <= ws@.len() - 1,
            front.deep_view() =~= ws.deep_view().subrange(0, j as int),
        decreases ws@.len() - 1 - j,
    {
        let w = ws[j].clone();
        assert(w.deep_view() =~= w@);
        assert(ws@[j as int].deep_view() =~= ws@[j as int]@);
        let ghost d = front.deep_view();
        front.push(w);
        assert(front.deep_view() =~= d.push(ws.deep_view()[j as int]));
        j = j + 1;
    }
    assert(ws.deep_view().subrange(0, ws@.len() - 1) =~= ws.deep_view().drop_last());
    assert(ws@[ws@.len() - 1].deep_view() =~= ws@[ws@.len() - 1]@);
    (join_with_spaces(&front), ws[ws.len() - 1].clone())
}

/// (first, last) for a folder, from its local name or the online label.
pub fn pick_first_last(local_name: &str, label: &str) -> (r: (String, String))
    ensures
        (r.0@, r.1@) == first_last_of(local_name@, label@),
{
    let v = chars_of(local_name);
    let n = v.len();
    match find_first(&v, ',') {
        Some(k) => {
            let last = trim_chars(&copy_range(&v, 0, k), TrimSet::Whitespace);
            let first = trim_chars(&copy_range(&v, k + 1, n), TrimSet::Whitespace);
            if last.len() > 0 && first.len() > 0 {
                return (string_of(&first), string_of(&last));
            }
        },
        None => {},
    }
    let ws = split_words(&chars_of(label));
    if ws.len() >= 2 {
        let (f, l) = front_and_last(&ws);
        (string_of(&f), string_of(&l))
    } else {
        (label.to_owned(), String::new())
    }
}

/// `Last, First` from a label `First [Middle...] Last`; `None` for a label of one word.
pub open spec fn inverted_label(label: Seq<char>) -> Option<Seq<char>> {
    if words(label).len() >= 2 {
        Some(words(label).last() + seq![',', ' '] + join_words(words(label).drop_last()))
    } else {
        None
    }
}

/// `Last, First` from a label `First [Middle...] Last`; `None` for a one-word label.
pub fn invert_first_last(label: &str) -> (r: Option<String>)
    ensures
        r is Some == inverted_label(label@) is Some,
        r is Some ==> r.unwrap()@ == inverted_label(label@).unwrap(),
{
    let ws = split_words(&chars_of(label));
    if ws.len() >= 2 {
        let (f, l) = front_and_last(&ws);
        let mut v = l;
        v.push(',');
        v.push(' ');
        append_chars(&mut v, &f);
        Some(string_of(&v))
    } else {
        None
    }
}

/// What one character becomes in a search text.
pub open spec fn query_char(c: char) -> char {
    if is_ascii_alnum(c) || is_ws(c) || c == ',' {
        c
    } else {
        ' '
    }
}

/// The search text of a folder name before the comma swap: enclosures removed, NFKD,
/// characters other than ASCII letters, digits, whitespace and commas made spaces,
/// whitespace collapsed.
pub open spec fn query_base(name: Seq<char>) -> Seq<char> {
    let d = nfkd_of(
        regex_replaced(r"\([^\)]+\)"@, regex_replaced(r"\[[^\]]+\]"@, name, ""@), ""@),
    );
    collapse_ws(Seq::new(d.len(), |i: int| query_char(d[i])))
}

/// The search text of a folder name: `Last, First` becomes `First Last`.
pub open spec fn query_of(name: Seq<char>) -> Seq<char> {
    let s = query_base(name);
    let k = first_index(s, ',');
    let last = trim_both(s.subrange(0, k), TrimSet::Whitespace);
    let first = trim_both(s.subrange(k + 1, s.len() as int), TrimSet::Whitespace);
    if k >= 0 && first.len() > 0 && last.len() > 0 {
        first + seq![' '] + last
    } else {
        s
    }
}

/// The search text of a folder name.
pub fn normalize_query(name: &str) -> (r: String)
    ensures
        r@ == query_of(name@),
{
    let a = regex_replace_all(r"\[[^\]]+\]", name, "");
    let b = regex_replace_all(r"\([^\)]+\)", a.as_str(), "");
    let d = chars_of(decompose_compat(b.as_str()).as_str());
    let mut m: Vec<char> = Vec::new();
    let mut i: usize = 0;
    while i < d.len()
        invariant
            i <= d@.len(),
            m@ =~= Seq::new(i as nat, |k: int| query_char(d@[k])),
        decreases d@.len() - i,
    {
        let c = d[i];
        if ascii_alnum(c) || is_whitespace(c) || c == ',' {
            m.push(c);
        } else {
            m.push(' ');
        }
        i = i + 1;
    }
    let s = collapse_whitespace(&m);
    let n = s.len();
    match find_first(&s, ',') {
        Some(k) => {
            let last = trim_chars(&copy_range(&s, 0, k), TrimSet::Whitespace);
            let first = trim_chars(&copy_range(&s, k + 1, n), TrimSet::Whitespace);
            if first.len() > 0 && last.len() > 0 {
                let mut v = first;
                v.push(' ');
                append_chars(&mut v, &last);
                return string_of(&v);
            }
        },
        None => {},
    }
    string_of(&s)
}

/// The score key of a label: the comparison key (accents removed, ASCII letters and digits
/// lowered, everything else a space, whitespace collapsed).
pub fn normalize_for_score(s: &str) -> (r: String)
    ensures
        r@ == crate::normalize::compare_key(s@),
{
    string_of(&crate::normalize::normalize_for_compare(s))
}

/// F1 of the two word sets (precision against `b`, recall against `a`), which is
/// `2·|A∩B| / (|A| + |B|)`; zero when either has no word.
pub open spec fn f1_of(a: Seq<char>, b: Seq<char>) -> Frac {
    let x = distinct(words(a));
    let y = distinct(words(b));
    if x.len() == 0 || y.len() == 0 {
        (0, 1)
    } else {
        (2 * common(x, y), x.len() + y.len())
    }
}

/// F1 of the word sets of `a` (the query) and `b` (a label).
pub fn token_overlap_f1(a: &str, b: &str) -> (r: Ratio)
    ensures
        r@ == f1_of(a@, b@),
        r.wf(),
{
    let x = distinct_items(&split_words(&chars_of(a)));
    let y = distinct_items(&split_words(&chars_of(b)));
    if x.len() == 0 || y.len() == 0 {
        return Ratio { num: 0, den: 1 };
    }
    let c = count_common(&x, &y);
    proof {
        lemma_distinct(words(a@));
        lemma_distinct(words(b@));
        lemma_common_bounded(x.deep_view(), y.deep_view());
        lemma_common_symmetric(x.deep_view(), y.deep_view());
        lemma_common_bounded(y.deep_view(), x.deep_view());
    }
    Ratio { num: 2 * (c as u128), den: x.len() as u128 + y.len() as u128 }
}

/// Whether `pat` occurs in `s` at position `i`.
pub open spec fn occurs_at(s: Seq<char>, pat: Seq<char>, i: int) -> bool {
    0 <= i && i + pat.len() <= s.len() && s.subrange(i, i + pat.len()) == pat
}

/// Whether `pat` occurs somewhere in `s`.
pub open spec fn occurs_in(s: Seq<char>, pat: Seq<char>) -> bool {
    exists|i: int| occurs_at(s, pat, i)
}

pub(crate) fn find_sub(s: &Vec<char>, pat: &Vec<char>) -> (r: bool)
    ensures
        r == occurs_in(s@, pat@),
{
    if pat.len() > s.len() {
        assert forall|i: int| !occurs_at(s@, pat@, i) by {}
        return false;
    }
    let n = s.len();
    let m = pat.len();
    let mut i: usize = 0;
    while i <= n - m
        invariant
            n == s@.len(),
            m == pat@.len(),
            pat@.len() <= s@.len(),
            i <= s@.len(),
            forall|j: int| 0 <= j < i ==> !occurs_at(s@, pat@, j),
        decreases s@.len() - i,
    {
        let mut k: usize = 0;
        let mut same = true;
        while k < m
            invariant
                n == s@.len(),
                m == pat@.len(),
                i + pat@.len() <= s@.len(),
                k <= pat@.len(),
                same == (forall|q: int| 0 <= q < k ==> s@[i + q] == pat@[q]),
            decreases pat@.len() - k,
        {
            if s[i + k] != pat[k] {
                same = false;
            }
            k = k + 1;
        }
        if same {
            assert(s@.subrange(i as int, i + pat@.len()) =~= pat@);
            assert(occurs_at(s@, pat@, i as int));
            return true;
        }
        assert(!occurs_at(s@, pat@, i as int)) by {
            if s@.subrange(i as int, i + pat@.len()) == pat@ {
                let q = choose|q: int| 0 <= q < pat@.len() && s@[i + q] != pat@[q];
                assert(s@.subrange(i as int, i + pat@.len())[q] == s@[i + q]);
            }
        }
        if i == n - m {
            assert forall|j: int| !occurs_at(s@, pat@, j) by {
                if j > i as int && occurs_at(s@, pat@, j) {
                    assert(j + pat@.len() <= s@.len());
                }
            }
            return false;
        }
        i = i + 1;
    }
    assert forall|j: int| !occurs_at(s@, pat@, j) by {
        if j >= i && occurs_at(s@, pat@, j) {
            assert(j + pat@.len() <= s@.len());
        }
    }
    false
}

/// Whether a description names a writer (`writer`, `author`, `novelist`, `poet` or
/// `écrivain`, after ASCII lower-casing).
pub open spec fn describes_writer(d: Seq<char>) -> bool {
    occurs_in(d, seq!['w', 'r', 'i', 't', 'e', 'r']) || occurs_in(d, seq!['a', 'u', 't', 'h', 'o', 'r'])
        || occurs_in(d, seq!['n', 'o', 'v', 'e', 'l', 'i', 's', 't']) || occurs_in(
        d,
        seq!['p', 'o', 'e', 't'],
    ) || occurs_in(d, seq!['\u{e9}', 'c', 'r', 'i', 'v', 'a', 'i', 'n'])
}

/// The score of one search hit for a query key, in millionths: half for a writer's
/// description; full when the label (or its inversion) has the query's key; otherwise half
/// of the better word F1, or a half outright when that reaches 0.9.
pub open spec fn hit_score_of(role: bool, exact: bool, f1_fl: int, f1_lf: int) -> int {
    let base: int = if role {
        500_000
    } else {
        0
    };
    let ov = if f1_fl >= f1_lf {
        f1_fl
    } else {
        f1_lf
    };
    if exact {
        1_000_000
    } else if ov >= 900_000 {
        base + 500_000
    } else {
        base + ov / 2
    }
}

/// The score of one search hit, in millionths.
pub fn hit_score(role: bool, exact: bool, f1_fl: u64, f1_lf: u64) -> (r: u64)
    requires
        f1_fl <= 1_000_000,
        f1_lf <= 1_000_000,
    ensures
        r == hit_score_of(role, exact, f1_fl as int, f1_lf as int),
{
    let base: u64 = if role {
        500_000
    } else {
        0
    };
    let ov = if f1_fl >= f1_lf {
        f1_fl
    } else {
        f1_lf
    };
    if exact {
        1_000_000
    } else if ov >= 900_000 {
        base + 500_000
    } else {
        base + ov / 2
    }
}


/// Whether a hit's description names a writer.
pub fn is_writer_description(description: &str) -> (r: bool)
    ensures
        r == describes_writer(crate::text::ascii_lower_seq(description@)),
{
    let d = lower_ascii(&chars_of(description));
    find_sub(&d, &vec!['w', 'r', 'i', 't', 'e', 'r']) || find_sub(&d, &vec!['a', 'u', 't', 'h', 'o', 'r'])
        || find_sub(&d, &vec!['n', 'o', 'v', 'e', 'l', 'i', 's', 't']) || find_sub(
        &d,
        &vec!['p', 'o', 'e', 't'],
    ) || find_sub(&d, &vec!['\u{e9}', 'c', 'r', 'i', 'v', 'a', 'i', 'n'])
}

/// One hit of the online search: its id, label and description.
#[derive(Clone, Debug)]
pub struct SearchHit {
    pub id: String,
    pub label: String,
    pub description: String,
}

/// The score of one hit for a query key: see `hit_score_of`; the label is compared as
/// `First Last` and, inverted, as `Last, First`, both by their score keys.
pub open spec fn scored_hit(query_key: Seq<char>, h: SearchHit) -> int {
    let fl = crate::normalize::compare_key(h.label@);
    let inv = inverted_label(h.label@);
    let lf = if inv is Some {
        Some(crate::normalize::compare_key(inv.unwrap()))
    } else {
        None
    };
    let exact = fl == query_key || (lf is Some && lf.unwrap() == query_key);
    let f_fl = frac_millionths(f1_of(query_key, fl));
    let f_lf = if lf is Some {
        frac_millionths(f1_of(query_key, lf.unwrap()))
    } else {
        0
    };
    hit_score_of(describes_writer(crate::text::ascii_lower_seq(h.description@)), exact, f_fl, f_lf)
}

/// The score of one search hit for a query key, in millionths.
pub fn score_hit(query_key: &str, h: &SearchHit) -> (r: u64)
    ensures
        r == scored_hit(query_key@, *h),
{
    let fl = normalize_for_score(h.label.as_str());
    let inv = invert_first_last(h.label.as_str());
    let q = chars_of(query_key);
    let mut exact = crate::sets::same_chars(&chars_of(fl.as_str()), &q);
    let f_fl = token_overlap_f1(query_key, fl.as_str()).to_millionths();
    let mut f_lf: u64 = 0;
    match &inv {
        Some(i) => {
            let lf = normalize_for_score(i.as_str());
            if crate::sets::same_chars(&chars_of(lf.as_str()), &q) {
                exact = true;
            }
            f_lf = token_overlap_f1(query_key, lf.as_str()).to_millionths();
        },
        None => {},
    }
    let role = is_writer_description(h.description.as_str());
    hit_score(role, exact, f_fl, f_lf)
}

/// Position of the best hit among the first `n`: the first to reach the highest score.
pub open spec fn best_hit_upto(query_key: Seq<char>, hits: Seq<SearchHit>, n: int) -> Option<int>
    decreases n,
{
    if n <= 0 {
        None
    } else {
        let prev = best_hit_upto(query_key, hits, n - 1);
        match prev {
            None => Some(n - 1),
            Some(b) => if scored_hit(query_key, hits[b]) >= scored_hit(query_key, hits[n - 1]) {
                prev
            } else {
                Some(n - 1)
            },
        }
    }
}

/// The best hit of a search for a folder name and its score: the first hit with the highest
/// score for the name's search key.
pub fn best_search_hit(query: &str, hits: &Vec<SearchHit>) -> (r: Option<(usize, u64)>)
    ensures
        r is Some == (hits@.len() > 0),
        r is Some ==> {
            let key = crate::normalize::compare_key(query@);
            &&& best_hit_upto(key, hits@, hits@.len() as int) == Some(r.unwrap().0 as int)
            &&& r.unwrap().1 == scored_hit(key, hits@[r.unwrap().0 as int])
        },
{
    let key = normalize_for_score(query);
    let mut best: Option<(usize, u64)> = None;
    let mut i: usize = 0;
    while i < hits.len()
        invariant
            i <= hits@.len(),
            key@ == crate::normalize::compare_key(query@),
            best is Some == (i > 0),
            best is Some ==> best_hit_upto(key@, hits@, i as int) == Some(best.unwrap().0 as int)
                && best.unwrap().0 < i && best.unwrap().1 == scored_hit(key@, hits@[best.unwrap().0 as int]),
        decreases hits@.len() - i,
    {
        let s = score_hit(key.as_str(), &hits[i]);
        match best {
            Some((_, bs)) => {
                if bs < s {
                    best = Some((i, s));
                }
            },
            None => {
                best = Some((i, s));
            },
        }
        i = i + 1;
    }
    best
}

proof fn lemma_first_index_comma_free(s: Seq<char>)
    requires
        forall|i: int| 0 <= i < s.len() ==> s[i] != ',',
    ensures
        first_index(s, ',') == -1,
    decreases s.len(),
{
    if s.len() > 0 {
        lemma_first_index_comma_free(s.drop_last());
    }
}

proof fn lemma_first_index_extends(s: Seq<char>, k: int, n: int)
    requires
        0 <= k < n <= s.len(),
        first_index(s.subrange(0, k + 1), ',') == k,
    ensures
        first_index(s.subrange(0, n), ',') == k,
    decreases n - k,
{
    if n > k + 1 {
        lemma_first_index_extends(s, k, n - 1);
        assert(s.subrange(0, n).drop_last() =~= s.subrange(0, n - 1));
    }
}

/// Round trip: a folder named `Last, First`, with both parts non-empty and free of
/// surrounding whitespace and the surname free of commas, is parsed back into those parts,
/// and formatting them as `Last, First` gives the folder name again.
pub proof fn lemma_author_dir_round_trip(last: Seq<char>, first: Seq<char>, label: Seq<char>)
    requires
        last.len() > 0,
        first.len() > 0,
        forall|i: int| 0 <= i < last.len() ==> last[i] != ',',
        !is_ws(last[0]),
        !is_ws(last.last()),
        !is_ws(first[0]),
        !is_ws(first.last()),
    ensures
        first_last_of(last + seq![',', ' '] + first, label) == (first, last),
        crate::sort::author_dir_of(
            first_last_of(last + seq![',', ' '] + first, label).0,
            first_last_of(last + seq![',', ' '] + first, label).1,
        ) == last + seq![',', ' '] + first,
{
    let x = last + seq![',', ' '] + first;
    let k = last.len() as int;
    lemma_first_index_comma_free(last);
    assert(x.subrange(0, k + 1).drop_last() =~= last);
    assert(x.subrange(0, k + 1).last() == ',');
    lemma_first_index_extends(x, k, x.len() as int);
    assert(x.subrange(0, x.len() as int) =~= x);
    assert(first_index(x, ',') == k);
    assert(x.subrange(0, k) =~= last);
    assert(trim_start(last, TrimSet::Whitespace) == last);
    assert(trim_end(last, TrimSet::Whitespace) == last);
    let tail = x.subrange(k + 1, x.len() as int);
    assert(tail =~= seq![' '] + first);
    assert(tail.drop_first() =~= first);
    assert(trim_start(tail, TrimSet::Whitespace) == trim_start(first, TrimSet::Whitespace));
    assert(trim_start(first, TrimSet::Whitespace) == first);
    assert(trim_end(first, TrimSet::Whitespace) == first);
}

} // verus!
