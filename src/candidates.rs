use vstd::prelude::*;
use vstd::utf8::encode_utf8;
use crate::normalize::{name_key, normalize_name, trim_both, trim_chars, TrimSet};
use crate::replace::{regex_replace_all, regex_replaced};
use crate::sets::{contains_item, same_chars};
use crate::text::{
    append_chars, chars_of, is_ascii_digit, join_with_spaces, join_words, split_words, string_of,
    words,
};

verus! {

/// The text with bracketed, then parenthesized, spans replaced by spaces.
pub open spec fn enclosures_blanked(s: Seq<char>) -> Seq<char> {
    regex_replaced(r"\([^\)]+\)"@, regex_replaced(r"\[[^\]]+\]"@, s, " "@), " "@)
}

/// `value` with bracketed and parenthesized spans replaced by spaces.
pub fn strip_enclosures(value: &str) -> (r: String)
    ensures
        r@ == enclosures_blanked(value@),
{
    let step = regex_replace_all(r"\[[^\]]+\]", value, " ");
    regex_replace_all(r"\([^\)]+\)", step.as_str(), " ")
}

/// Whether a word is made of ASCII digits alone.
pub open spec fn all_digits(w: Seq<char>) -> bool {
    forall|i: int| 0 <= i < w.len() ==> is_ascii_digit(#[trigger] w[i])
}

/// The words of `ws` that are not made of ASCII digits alone.
pub open spec fn non_numeric(ws: Seq<Seq<char>>) -> Seq<Seq<char>>
    decreases ws.len(),
{
    if ws.len() == 0 {
        ws
    } else if all_digits(ws.last()) {
        non_numeric(ws.drop_last())
    } else {
        non_numeric(ws.drop_last()).push(ws.last())
    }
}

/// The words of `s` without those made of digits alone, joined by single spaces.
pub open spec fn numeric_removed(s: Seq<char>) -> Seq<char> {
    join_words(non_numeric(words(s)))
}

fn is_all_digits(w: &Vec<char>) -> (r: bool)
    ensures
        r == all_digits(w@),
{
    let mut i: usize = 0;
    while i < w.len()
        invariant
            i <= w@.len(),
            forall|k: int| 0 <= k < i ==> is_ascii_digit(#[trigger] w@[k]),
        decreases w@.len() - i,
    {
        if !('0' <= w[i] && w[i] <= '9') {
            return false;
        }
        i = i + 1;
    }
    true
}

/// Removes the words of `value` that are made of ASCII digits alone.
pub fn remove_numeric_tokens(value: &Vec<char>) -> (r: Vec<char>)
    ensures
        r@ == numeric_removed(value@),
{
    let ws = split_words(value);
    let mut kept: Vec<Vec<char>> = Vec::new();
    let mut i: usize = 0;
    while i < ws.len()
        invariant
            i <= ws@.len(),
            kept.deep_view() == non_numeric(ws.deep_view().subrange(0, i as int)),
        decreases ws@.len() - i,
    {
        let ghost sub = ws.deep_view().subrange(0, i + 1);
        assert(sub.drop_last() =~= ws.deep_view().subrange(0, i as int));
        assert(ws@[i as int].deep_view() =~= ws@[i as int]@);
        assert(sub.last() == ws@[i as int]@);
        if !is_all_digits(&ws[i]) {
            let w = ws[i].clone();
            assert(w.deep_view() =~= w@);
            let ghost d = kept.deep_view();
            kept.push(w);
            assert(kept.deep_view() =~= d.push(sub.last()));
        }
        i = i + 1;
    }
    assert(ws.deep_view().subrange(0, ws@.len() as int) =~= ws.deep_view());
    join_with_spaces(&kept)
}

/// Whether a word is an initial: one byte long, or one byte and a dot (`J.`).
pub open spec fn is_initial(w: Seq<char>) -> bool {
    encode_utf8(w).len() == 1 || (encode_utf8(w).len() == 2 && w.len() == 2 && w[1] == '.')
}

/// The words of `ws` that are initials (`want`), or the others.
pub open spec fn words_where(ws: Seq<Seq<char>>, want: bool) -> Seq<Seq<char>>
    decreases ws.len(),
{
    if ws.len() == 0 {
        ws
    } else if is_initial(ws.last()) == want {
        words_where(ws.drop_last(), want).push(ws.last())
    } else {
        words_where(ws.drop_last(), want)
    }
}

/// The words of `s` with the initials moved after the longer words, when there are both.
pub open spec fn initials_reordered(s: Seq<char>) -> Option<Seq<char>> {
    let initials = words_where(words(s), true);
    let others = words_where(words(s), false);
    if initials.len() == 0 || others.len() == 0 {
        None
    } else {
        Some(join_words(others + initials))
    }
}

fn byte_len_is_one(w: &Vec<char>) -> (r: bool)
    ensures
        r == is_initial(w@),
{
    let s = string_of(w);
    let n = s.as_str().as_bytes().len();
    n == 1 || (n == 2 && w.len() == 2 && w[1] == '.')
}

/// Moves the initials of `value` (one-byte words, alone or with a dot) after the other
/// words; `None` unless it has both kinds.
pub fn reorder_initials(value: &Vec<char>) -> (r: Option<Vec<char>>)
    ensures
        r is Some == initials_reordered(value@) is Some,
        r is Some ==> r.unwrap()@ == initials_reordered(value@).unwrap(),
{
    let ws = split_words(value);
    let mut initials: Vec<Vec<char>> = Vec::new();
    let mut others: Vec<Vec<char>> = Vec::new();
    let mut i: usize = 0;
    while i < ws.len()
        invariant
            i <= ws@.len(),
            initials.deep_view() == words_where(ws.deep_view().subrange(0, i as int), true),
            others.deep_view() == words_where(ws.deep_view().subrange(0, i as int), false),
        decreases ws@.len() - i,
    {
        let ghost sub = ws.deep_view().subrange(0, i + 1);
        assert(sub.drop_last() =~= ws.deep_view().subrange(0, i as int));
        assert(ws@[i as int].deep_view() =~= ws@[i as int]@);
        assert(sub.last() == ws@[i as int]@);
        let w = ws[i].clone();
        assert(w.deep_view() =~= w@);
        if byte_len_is_one(&ws[i]) {
            let ghost d = initials.deep_view();
            initials.push(w);
            assert(initials.deep_view() =~= d.push(sub.last()));
        } else {
            let ghost d = others.deep_view();
            others.push(w);
            assert(others.deep_view() =~= d.push(sub.last()));
        }
        i = i + 1;
    }
    assert(ws.deep_view().subrange(0, ws@.len() as int) =~= ws.deep_view());
    if initials.len() == 0 || others.len() == 0 {
        return None;
    }
    let mut combined = others;
    let ghost d = combined.deep_view();
    let mut j: usize = 0;
    while j < initials.len()
        invariant
            j <= initials@.len(),
            combined.deep_view() =~= d + initials.deep_view().subrange(0, j as int),
        decreases initials@.len() - j,
    {
        let w = initials[j].clone();
        assert(w.deep_view() =~= w@);
        assert(initials@[j as int].deep_view() =~= initials@[j as int]@);
        let ghost e = combined.deep_view();
        combined.push(w);
        assert(combined.deep_view() =~= e.push(initials.deep_view()[j as int]));
        j = j + 1;
    }
    assert(initials.deep_view().subrange(0, initials@.len() as int) =~= initials.deep_view());
    Some(join_with_spaces(&combined))
}

/// The text after the first comma, a space, and the text before it, trimmed; what
/// `Last, First` becomes as `First Last`.
pub open spec fn comma_swapped(c: Seq<char>, k: int) -> Seq<char> {
    trim_both(
        trim_both(c.subrange(k + 1, c.len() as int), TrimSet::Whitespace) + seq![' '] + trim_both(
            c.subrange(0, k),
            TrimSet::Whitespace,
        ),
        TrimSet::Whitespace,
    )
}

/// Index of the first comma in `s`, or -1.
pub open spec fn comma_at(s: Seq<char>) -> int {
    crate::normalize::first_index(s, ',')
}

/// The base forms of a name, in order, without repeats: the trimmed name; it with enclosures
/// blanked; that without numeric words; the initials-reordered form.
pub open spec fn base_forms(name: Seq<char>) -> Seq<Seq<char>> {
    let trimmed = trim_both(name, TrimSet::Whitespace);
    let stripped = enclosures_blanked(trimmed);
    let b1 = if stripped != trimmed {
        seq![trimmed, stripped]
    } else {
        seq![trimmed]
    };
    let digits_removed = numeric_removed(stripped);
    let b2 = if digits_removed.len() > 0 && !b1.contains(digits_removed) {
        b1.push(digits_removed)
    } else {
        b1
    };
    let reordered = if initials_reordered(digits_removed) is Some {
        initials_reordered(digits_removed).unwrap()
    } else if initials_reordered(stripped) is Some {
        initials_reordered(stripped).unwrap()
    } else {
        Seq::empty()
    };
    if reordered.len() > 0 && !b2.contains(reordered) {
        b2.push(reordered)
    } else {
        b2
    }
}

/// Adds one base form to the candidate list: the form if new, then its comma-swapped form if
/// it has a comma and the swap is non-empty and new.
pub open spec fn add_candidate(acc: Seq<Seq<char>>, c: Seq<char>) -> Seq<Seq<char>> {
    let a1 = if acc.contains(c) {
        acc
    } else {
        acc.push(c)
    };
    let k = comma_at(c);
    if k >= 0 && comma_swapped(c, k).len() > 0 && !a1.contains(comma_swapped(c, k)) {
        a1.push(comma_swapped(c, k))
    } else {
        a1
    }
}

/// The candidate list after each base form is added in turn.
pub open spec fn add_all(acc: Seq<Seq<char>>, forms: Seq<Seq<char>>) -> Seq<Seq<char>>
    decreases forms.len(),
{
    if forms.len() == 0 {
        acc
    } else {
        add_candidate(add_all(acc, forms.drop_last()), forms.last())
    }
}

/// The candidate surface forms of an author name, in priority order; none for a blank name.
pub open spec fn candidates_of(name: Seq<char>) -> Seq<Seq<char>> {
    if trim_both(name, TrimSet::Whitespace).len() == 0 {
        Seq::empty()
    } else {
        add_all(Seq::empty(), base_forms(name))
    }
}

fn push_new(list: &mut Vec<Vec<char>>, w: Vec<char>)
    ensures
        final(list).deep_view() == (if old(list).deep_view().contains(w@) {
            old(list).deep_view()
        } else {
            old(list).deep_view().push(w@)
        }),
{
    if !contains_item(list, &w) {
        let ghost d = list.deep_view();
        assert(w.deep_view() =~= w@);
        list.push(w);
        assert(list.deep_view() =~= d.push(w@));
    }
}

fn swap_at_comma(c: &Vec<char>, k: usize) -> (r: Vec<char>)
    requires
        k < c@.len(),
    ensures
        r@ == comma_swapped(c@, k as int),
{
    let n = c.len();
    let mut right: Vec<char> = Vec::new();
    let mut i: usize = k + 1;
    while i < n
        invariant
            k + 1 <= i <= n,
            n == c@.len(),
            right@ =~= c@.subrange(k + 1, i as int),
        decreases n - i,
    {
        right.push(c[i]);
        i = i + 1;
    }
    let mut left: Vec<char> = Vec::new();
    let mut j: usize = 0;
    while j < k
        invariant
            j <= k,
            k < c@.len(),
            left@ =~= c@.subrange(0, j as int),
        decreases k - j,
    {
        left.push(c[j]);
        j = j + 1;
    }
    assert(right@ == c@.subrange(k + 1, n as int));
    assert(left@ == c@.subrange(0, k as int));
    let mut joined = trim_chars(&right, TrimSet::Whitespace);
    joined.push(' ');
    let tl = trim_chars(&left, TrimSet::Whitespace);
    append_chars(&mut joined, &tl);
    assert(joined@ =~= trim_both(right@, TrimSet::Whitespace) + seq![' '] + trim_both(
        left@,
        TrimSet::Whitespace,
    ));
    trim_chars(&joined, TrimSet::Whitespace)
}

fn first_comma(s: &Vec<char>) -> (r: Option<usize>)
    ensures
        r is Some <==> comma_at(s@) >= 0,
        r is Some ==> r.unwrap() == comma_at(s@) && r.unwrap() < s@.len(),
{
    crate::normalize::find_first(s, ',')
}

/// The candidate surface forms of an author name, in priority order, without repeats.
pub fn generate_candidates(name: &str) -> (r: Vec<Vec<char>>)
    ensures
        r.deep_view() == candidates_of(name@),
{
    let mut results: Vec<Vec<char>> = Vec::new();
    let trimmed = trim_chars(&chars_of(name), TrimSet::Whitespace);
    if trimmed.len() == 0 {
        assert(results.deep_view() =~= Seq::<Seq<char>>::empty());
        return results;
    }
    let ts = string_of(&trimmed);
    let stripped = chars_of(strip_enclosures(ts.as_str()).as_str());
    let mut base: Vec<Vec<char>> = vec![trimmed.clone()];
    assert(trimmed.deep_view() =~= trimmed@);
    assert(base.deep_view() =~= seq![trimmed@]);
    if !same_chars(&stripped, &trimmed) {
        let ghost d = base.deep_view();
        assert(stripped.deep_view() =~= stripped@);
        base.push(stripped.clone());
        assert(base.deep_view() =~= d.push(stripped@));
    }
    let ghost trimmed_v = trim_both(name@, TrimSet::Whitespace);
    let ghost stripped_v = enclosures_blanked(trimmed_v);
    assert(trimmed@ == trimmed_v);
    assert(stripped@ == stripped_v);
    let ghost b1 = if stripped_v != trimmed_v {
        seq![trimmed_v, stripped_v]
    } else {
        seq![trimmed_v]
    };
    assert(base.deep_view() == b1);
    let digits_removed = remove_numeric_tokens(&stripped);
    if digits_removed.len() > 0 {
        push_new(&mut base, digits_removed.clone());
    }
    let ghost b2 = if digits_removed@.len() > 0 && !b1.contains(digits_removed@) {
        b1.push(digits_removed@)
    } else {
        b1
    };
    assert(base.deep_view() == b2);
    let reordered = match reorder_initials(&digits_removed) {
        Some(r) => r,
        None => match reorder_initials(&stripped) {
            Some(r) => r,
            None => Vec::new(),
        },
    };
    let ghost rv = if initials_reordered(digits_removed@) is Some {
        initials_reordered(digits_removed@).unwrap()
    } else if initials_reordered(stripped_v) is Some {
        initials_reordered(stripped_v).unwrap()
    } else {
        Seq::empty()
    };
    assert(reordered@ =~= rv);
    if reordered.len() > 0 {
        push_new(&mut base, reordered);
    }
    assert(base.deep_view() =~= base_forms(name@));
    let mut i: usize = 0;
    while i < base.len()
        invariant
            i <= base@.len(),
            results.deep_view() == add_all(Seq::empty(), base.deep_view().subrange(0, i as int)),
        decreases base@.len() - i,
    {
        let ghost sub = base.deep_view().subrange(0, i + 1);
        assert(sub.drop_last() =~= base.deep_view().subrange(0, i as int));
        assert(base@[i as int].deep_view() =~= base@[i as int]@);
        let c = &base[i];
        push_new(&mut results, c.clone());
        match first_comma(c) {
            Some(k) => {
                let swapped = swap_at_comma(c, k);
                if swapped.len() > 0 {
                    push_new(&mut results, swapped);
                }
            },
            None => {},
        }
        i = i + 1;
    }
    assert(base.deep_view().subrange(0, base@.len() as int) =~= base.deep_view());
    results
}

/// The catalog keys of the candidates of a name, non-empty and without repeats, in order.
pub open spec fn keys_of(cands: Seq<Seq<char>>) -> Seq<Seq<char>>
    decreases cands.len(),
{
    if cands.len() == 0 {
        Seq::empty()
    } else {
        let prev = keys_of(cands.drop_last());
        let k = name_key(cands.last());
        if k.len() == 0 || prev.contains(k) {
            prev
        } else {
            prev.push(k)
        }
    }
}

/// The catalog keys to look a name up under, in priority order.
pub fn normalized_variants(name: &str) -> (r: Vec<String>)
    ensures
        r@.len() == keys_of(candidates_of(name@)).len(),
        forall|i: int| 0 <= i < r@.len() ==> (#[trigger] r@[i])@ == keys_of(candidates_of(name@))[i],
{
    let cands = generate_candidates(name);
    let mut keys: Vec<Vec<char>> = Vec::new();
    let mut out: Vec<String> = Vec::new();
    let mut i: usize = 0;
    while i < cands.len()
        invariant
            i <= cands@.len(),
            cands.deep_view() == candidates_of(name@),
            keys.deep_view() == keys_of(cands.deep_view().subrange(0, i as int)),
            out@.len() == keys@.len(),
            forall|j: int| 0 <= j < out@.len() ==> (#[trigger] out@[j])@ == keys.deep_view()[j],
        decreases cands@.len() - i,
    {
        let ghost sub = cands.deep_view().subrange(0, i + 1);
        assert(sub.drop_last() =~= cands.deep_view().subrange(0, i as int));
        assert(cands@[i as int].deep_view() =~= cands@[i as int]@);
        let cs = string_of(&cands[i]);
        let key = normalize_name(cs.as_str());
        let kc = chars_of(key.as_str());
        if kc.len() > 0 && !contains_item(&keys, &kc) {
            let ghost d = keys.deep_view();
            assert(kc.deep_view() =~= kc@);
            keys.push(kc);
            assert(keys.deep_view() =~= d.push(kc@));
            out.push(key);
        }
        i = i + 1;
    }
    assert(cands.deep_view().subrange(0, cands@.len() as int) =~= cands.deep_view());
    out
}

} // verus!
