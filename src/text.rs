use vstd::prelude::*;

verus! {

/// Unicode `White_Space`, the set that `char::is_whitespace` tests.
pub open spec fn is_ws(c: char) -> bool {
    ('\u{9}' <= c && c <= '\u{d}') || c == ' ' || c == '\u{85}' || c == '\u{a0}' || c == '\u{1680}'
        || ('\u{2000}' <= c && c <= '\u{200a}') || c == '\u{2028}' || c == '\u{2029}' || c
        == '\u{202f}' || c == '\u{205f}' || c == '\u{3000}'
}

/// An ASCII letter or digit.
pub open spec fn is_ascii_alnum(c: char) -> bool {
    ('a' <= c && c <= 'z') || ('A' <= c && c <= 'Z') || ('0' <= c && c <= '9')
}

/// An ASCII upper-case letter.
pub open spec fn is_ascii_upper(c: char) -> bool {
    'A' <= c && c <= 'Z'
}

/// An ASCII lower-case letter.
pub open spec fn is_ascii_lower(c: char) -> bool {
    'a' <= c && c <= 'z'
}

/// An ASCII digit.
pub open spec fn is_ascii_digit(c: char) -> bool {
    '0' <= c && c <= '9'
}

/// An ASCII character.
pub open spec fn is_ascii_char(c: char) -> bool {
    c <= '\u{7f}'
}

/// The ASCII lower-case form of a character; others unchanged.
pub open spec fn ascii_lower(c: char) -> char {
    if is_ascii_upper(c) {
        ((c as u8) + 32) as char
    } else {
        c
    }
}

/// The ASCII upper-case form of a character; others unchanged.
pub open spec fn ascii_upper(c: char) -> char {
    if is_ascii_lower(c) {
        ((c as u8) - 32) as char
    } else {
        c
    }
}

/// The characters of `s`, each ASCII upper-case letter replaced by its lower-case form.
pub open spec fn ascii_lower_seq(s: Seq<char>) -> Seq<char> {
    Seq::new(s.len(), |i: int| ascii_lower(s[i]))
}

/// A word: a non-empty run of characters none of which is whitespace.
pub open spec fn is_word(w: Seq<char>) -> bool {
    w.len() > 0 && forall|i: int| 0 <= i < w.len() ==> !is_ws(#[trigger] w[i])
}

/// A text without whitespace.
pub open spec fn no_ws(w: Seq<char>) -> bool {
    forall|i: int| 0 <= i < w.len() ==> !is_ws(#[trigger] w[i])
}

/// Every item is a word.
pub open spec fn all_words(ws: Seq<Seq<char>>) -> bool {
    forall|i: int| 0 <= i < ws.len() ==> is_word(#[trigger] ws[i])
}

/// State of a left-to-right scan that cuts text at whitespace: finished words and the word
/// being read.
pub open spec fn ws_step(st: (Seq<Seq<char>>, Seq<char>), c: char) -> (Seq<Seq<char>>, Seq<char>) {
    if is_ws(c) {
        if st.1.len() > 0 {
            (st.0.push(st.1), Seq::empty())
        } else {
            st
        }
    } else {
        (st.0, st.1.push(c))
    }
}

/// The scan over all of `s`, from state `st`.
pub open spec fn ws_fold(st: (Seq<Seq<char>>, Seq<char>), s: Seq<char>) -> (
    Seq<Seq<char>>,
    Seq<char>,
)
    decreases s.len(),
{
    if s.len() == 0 {
        st
    } else {
        ws_step(ws_fold(st, s.drop_last()), s.last())
    }
}

/// The finished words, with the word being read if any.
pub open spec fn ws_flush(st: (Seq<Seq<char>>, Seq<char>)) -> Seq<Seq<char>> {
    if st.1.len() > 0 {
        st.0.push(st.1)
    } else {
        st.0
    }
}

/// The scan state before any character.
pub open spec fn ws_start() -> (Seq<Seq<char>>, Seq<char>) {
    (Seq::empty(), Seq::empty())
}

/// The whitespace-separated words of `s`, in order (what `str::split_whitespace` yields).
pub open spec fn words(s: Seq<char>) -> Seq<Seq<char>> {
    ws_flush(ws_fold(ws_start(), s))
}

/// Words joined by single spaces.
pub open spec fn join_words(ws: Seq<Seq<char>>) -> Seq<char>
    decreases ws.len(),
{
    if ws.len() == 0 {
        Seq::empty()
    } else if ws.len() == 1 {
        ws[0]
    } else {
        join_words(ws.drop_last()) + seq![' '] + ws.last()
    }
}

/// `s` with surrounding whitespace removed and each inner run of whitespace made one space.
pub open spec fn collapse_ws(s: Seq<char>) -> Seq<char> {
    join_words(words(s))
}

/// Scanning a concatenation is scanning its parts in turn.
pub proof fn lemma_fold_concat(st: (Seq<Seq<char>>, Seq<char>), x: Seq<char>, y: Seq<char>)
    ensures
        ws_fold(st, x + y) == ws_fold(ws_fold(st, x), y),
    decreases y.len(),
{
    if y.len() == 0 {
        assert(x + y =~= x);
    } else {
        assert((x + y).drop_last() =~= x + y.drop_last());
        assert((x + y).last() == y.last());
        lemma_fold_concat(st, x, y.drop_last());
    }
}

/// Scanning text without whitespace extends the word being read.
pub proof fn lemma_fold_no_ws(st: (Seq<Seq<char>>, Seq<char>), w: Seq<char>)
    requires
        no_ws(w),
    ensures
        ws_fold(st, w) == (st.0, st.1 + w),
    decreases w.len(),
{
    if w.len() == 0 {
        assert(st.1 + w =~= st.1);
    } else {
        lemma_fold_no_ws(st, w.drop_last());
        assert(st.1 + w.drop_last() + seq![w.last()] =~= st.1 + w);
        assert((st.1 + w.drop_last()).push(w.last()) =~= st.1 + w);
    }
}

proof fn lemma_fold_join(ws: Seq<Seq<char>>)
    requires
        all_words(ws),
        ws.len() > 0,
    ensures
        ws_fold(ws_start(), join_words(ws)) == (ws.drop_last(), ws.last()),
    decreases ws.len(),
{
    if ws.len() == 1 {
        lemma_fold_no_ws(ws_start(), ws[0]);
        assert(Seq::<char>::empty() + ws[0] =~= ws[0]);
        assert(ws.drop_last() =~= Seq::<Seq<char>>::empty());
    } else {
        let p = ws.drop_last();
        assert(all_words(p)) by {
            assert forall|i: int| 0 <= i < p.len() implies is_word(#[trigger] p[i]) by {
                assert(p[i] == ws[i]);
            }
        }
        lemma_fold_join(p);
        let j = join_words(p);
        assert(is_word(ws[ws.len() - 1]));
        lemma_fold_concat(ws_start(), j + seq![' '], ws.last());
        lemma_fold_concat(ws_start(), j, seq![' ']);
        assert(seq![' '].drop_last() =~= Seq::<char>::empty());
        assert(p.drop_last().push(p.last()) =~= p);
        let mid = ws_fold(ws_start(), j + seq![' ']);
        let st0 = ws_fold(ws_start(), j);
        assert(is_word(p[p.len() - 1]));
        assert(ws_fold(st0, seq![' ']) == ws_step(ws_fold(st0, seq![' '].drop_last()), ' '));
        assert(mid == (p, Seq::<char>::empty()));
        lemma_fold_no_ws(mid, ws.last());
        assert(Seq::<char>::empty() + ws.last() =~= ws.last());
    }
}

/// Joining words by single spaces and cutting the result at whitespace gives the words back.
pub proof fn lemma_words_of_join(ws: Seq<Seq<char>>)
    requires
        all_words(ws),
    ensures
        words(join_words(ws)) == ws,
{
    if ws.len() == 0 {
        assert(words(join_words(ws)) =~= ws);
    } else {
        lemma_fold_join(ws);
        assert(ws.drop_last().push(ws.last()) =~= ws);
    }
}

proof fn lemma_fold_valid(s: Seq<char>)
    ensures
        all_words(ws_fold(ws_start(), s).0),
        no_ws(ws_fold(ws_start(), s).1),
    decreases s.len(),
{
    if s.len() > 0 {
        lemma_fold_valid(s.drop_last());
        let st = ws_fold(ws_start(), s.drop_last());
        let c = s.last();
        if !is_ws(c) {
            assert forall|i: int| 0 <= i < st.1.push(c).len() implies !is_ws(
                #[trigger] st.1.push(c)[i],
            ) by {
                if i < st.1.len() {
                    assert(st.1.push(c)[i] == st.1[i]);
                }
            }
        } else if st.1.len() > 0 {
            let t = st.0.push(st.1);
            assert forall|i: int| 0 <= i < t.len() implies is_word(#[trigger] t[i]) by {
                if i < st.0.len() {
                    assert(t[i] == st.0[i]);
                }
            }
        }
    }
}

/// Every word that `words` yields is non-empty and free of whitespace.
pub proof fn lemma_words_valid(s: Seq<char>)
    ensures
        all_words(words(s)),
{
    lemma_fold_valid(s);
    let st = ws_fold(ws_start(), s);
    if st.1.len() > 0 {
        let t = st.0.push(st.1);
        assert forall|i: int| 0 <= i < t.len() implies is_word(#[trigger] t[i]) by {
            if i < st.0.len() {
                assert(t[i] == st.0[i]);
            }
        }
    }
}

/// Collapsing whitespace twice is collapsing it once.
pub proof fn lemma_collapse_idempotent(s: Seq<char>)
    ensures
        collapse_ws(collapse_ws(s)) == collapse_ws(s),
{
    lemma_words_valid(s);
    lemma_words_of_join(words(s));
}

/// Every character of a join of words is a character of one of the words, or a space.
pub proof fn lemma_join_chars(ws: Seq<Seq<char>>, p: spec_fn(char) -> bool)
    requires
        p(' '),
        forall|i: int, k: int| 0 <= i < ws.len() && 0 <= k < ws[i].len() ==> p(#[trigger] ws[i][k]),
    ensures
        forall|k: int| 0 <= k < join_words(ws).len() ==> p(#[trigger] join_words(ws)[k]),
    decreases ws.len(),
{
    if ws.len() == 1 {
        assert forall|k: int| 0 <= k < join_words(ws).len() implies p(
            #[trigger] join_words(ws)[k],
        ) by {
            assert(ws[0][k] == join_words(ws)[k]);
        }
    } else if ws.len() > 1 {
        let q = ws.drop_last();
        assert forall|i: int, k: int| 0 <= i < q.len() && 0 <= k < q[i].len() implies p(
            #[trigger] q[i][k],
        ) by {
            assert(q[i] == ws[i]);
        }
        lemma_join_chars(q, p);
        let j = join_words(q);
        let l = ws.last();
        assert forall|k: int| 0 <= k < join_words(ws).len() implies p(
            #[trigger] join_words(ws)[k],
        ) by {
            if k < j.len() {
                assert(join_words(ws)[k] == j[k]);
            } else if k == j.len() {
                assert(join_words(ws)[k] == ' ');
            } else {
                assert(join_words(ws)[k] == l[k - j.len() - 1]);
                assert(ws[ws.len() - 1] == l);
            }
        }
    }
}

/// The characters of `s`.
pub fn chars_of(s: &str) -> (r: Vec<char>)
    ensures
        r@ == s@,
{
    let n = s.unicode_len();
    let mut r: Vec<char> = Vec::new();
    let mut i: usize = 0;
    while i < n
        invariant
            n == s@.len(),
            i <= n,
            r@ == s@.subrange(0, i as int),
        decreases n - i,
    {
        r.push(s.get_char(i));
        i = i + 1;
    }
    assert(r@ =~= s@);
    r
}

/// Relies on `String::push`: the character is appended.
#[verifier::external_body]
fn push_char(s: &mut String, c: char)
    ensures
        final(s)@ == old(s)@.push(c),
{
    s.push(c);
}

/// The string made of the characters `v`.
pub fn string_of(v: &Vec<char>) -> (r: String)
    ensures
        r@ == v@,
{
    let mut r = String::new();
    let mut i: usize = 0;
    while i < v.len()
        invariant
            i <= v.len(),
            r@ == v@.subrange(0, i as int),
        decreases v.len() - i,
    {
        push_char(&mut r, v[i]);
        assert(v@.subrange(0, i as int).push(v@[i as int]) =~= v@.subrange(0, i + 1));
        i = i + 1;
    }
    assert(r@ =~= v@);
    r
}

/// Whether a character is Unicode whitespace.
pub fn is_whitespace(c: char) -> (r: bool)
    ensures
        r == is_ws(c),
{
    ('\u{9}' <= c && c <= '\u{d}') || c == ' ' || c == '\u{85}' || c == '\u{a0}' || c == '\u{1680}'
        || ('\u{2000}' <= c && c <= '\u{200a}') || c == '\u{2028}' || c == '\u{2029}' || c
        == '\u{202f}' || c == '\u{205f}' || c == '\u{3000}'
}

/// Whether a character is an ASCII letter or digit.
pub fn ascii_alnum(c: char) -> (r: bool)
    ensures
        r == is_ascii_alnum(c),
{
    ('a' <= c && c <= 'z') || ('A' <= c && c <= 'Z') || ('0' <= c && c <= '9')
}

/// The ASCII lower-case form of a character.
pub fn to_ascii_lower(c: char) -> (r: char)
    ensures
        r == ascii_lower(c),
{
    if 'A' <= c && c <= 'Z' {
        ((c as u8) + 32) as char
    } else {
        c
    }
}

/// Appends the characters of `w` to `r`.
pub fn append_chars(r: &mut Vec<char>, w: &Vec<char>)
    ensures
        final(r)@ == old(r)@ + w@,
{
    let mut i: usize = 0;
    while i < w.len()
        invariant
            i <= w.len(),
            r@ == old(r)@ + w@.subrange(0, i as int),
        decreases w.len() - i,
    {
        r.push(w[i]);
        assert(old(r)@ + w@.subrange(0, i + 1) =~= (old(r)@ + w@.subrange(0, i as int)).push(
            w@[i as int],
        ));
        i = i + 1;
    }
    assert(w@.subrange(0, w@.len() as int) =~= w@);
}

/// The whitespace-separated words of `s`.
pub fn split_words(s: &Vec<char>) -> (r: Vec<Vec<char>>)
    ensures
        r.deep_view() == words(s@),
{
    let mut done: Vec<Vec<char>> = Vec::new();
    let mut cur: Vec<char> = Vec::new();
    let mut i: usize = 0;
    while i < s.len()
        invariant
            i <= s.len(),
            (done.deep_view(), cur@) == ws_fold(ws_start(), s@.subrange(0, i as int)),
        decreases s.len() - i,
    {
        let c = s[i];
        assert(s@.subrange(0, i + 1).drop_last() =~= s@.subrange(0, i as int));
        if is_whitespace(c) {
            if cur.len() > 0 {
                let ghost d = done.deep_view();
                assert(cur.deep_view() =~= cur@);
                done.push(cur);
                assert(done.deep_view() =~= d.push(ws_fold(ws_start(), s@.subrange(0, i as int)).1));
                cur = Vec::new();
                assert(cur@ =~= Seq::<char>::empty());
            }
        } else {
            cur.push(c);
        }
        i = i + 1;
    }
    assert(s@.subrange(0, s@.len() as int) =~= s@);
    if cur.len() > 0 {
        let ghost d = done.deep_view();
        assert(cur.deep_view() =~= cur@);
        done.push(cur);
        assert(done.deep_view() =~= d.push(ws_fold(ws_start(), s@).1));
    }
    done
}

/// The words joined by single spaces.
pub fn join_with_spaces(ws: &Vec<Vec<char>>) -> (r: Vec<char>)
    ensures
        r@ == join_words(ws.deep_view()),
{
    let mut r: Vec<char> = Vec::new();
    let mut i: usize = 0;
    while i < ws.len()
        invariant
            i <= ws.len(),
            r@ == join_words(ws.deep_view().subrange(0, i as int)),
        decreases ws.len() - i,
    {
        let ghost sub = ws.deep_view().subrange(0, i + 1);
        assert(sub.drop_last() =~= ws.deep_view().subrange(0, i as int));
        assert(sub.last() == ws[i as int]@);
        if i > 0 {
            r.push(' ');
        }
        append_chars(&mut r, &ws[i]);
        if i == 0 {
            assert(r@ =~= sub[0]);
        } else {
            assert(r@ =~= join_words(sub.drop_last()) + seq![' '] + sub.last());
        }
        i = i + 1;
    }
    assert(ws.deep_view().subrange(0, ws.len() as int) =~= ws.deep_view());
    r
}

/// `s` with whitespace collapsed: words joined by single spaces.
pub fn collapse_whitespace(s: &Vec<char>) -> (r: Vec<char>)
    ensures
        r@ == collapse_ws(s@),
{
    let ws = split_words(s);
    join_with_spaces(&ws)
}

/// The characters of `v`, each ASCII upper-case letter lowered.
pub fn lower_ascii(v: &Vec<char>) -> (r: Vec<char>)
    ensures
        r@ == ascii_lower_seq(v@),
{
    let mut r: Vec<char> = Vec::new();
    let mut i: usize = 0;
    while i < v.len()
        invariant
            i <= v@.len(),
            r@ =~= ascii_lower_seq(v@.subrange(0, i as int)),
        decreases v@.len() - i,
    {
        r.push(to_ascii_lower(v[i]));
        i = i + 1;
    }
    assert(v@.subrange(0, v@.len() as int) =~= v@);
    r
}

/// The characters of `v` from `a` up to `b`.
pub fn copy_range(v: &Vec<char>, a: usize, b: usize) -> (r: Vec<char>)
    requires
        a <= b <= v@.len(),
    ensures
        r@ == v@.subrange(a as int, b as int),
{
    let mut r: Vec<char> = Vec::new();
    let mut i: usize = a;
    while i < b
        invariant
            a <= i <= b,
            b <= v@.len(),
            r@ =~= v@.subrange(a as int, i as int),
        decreases b - i,
    {
        r.push(v[i]);
        i = i + 1;
    }
    r
}

} // verus!
