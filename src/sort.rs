use vstd::prelude::*;
use vstd::string::StringExecFns;
use vstd::utf8::{encode_utf8, is_ascii_chars};
use crate::normalize::{trim_both, trim_chars, TrimSet};
use crate::replace::{regex_replace_all, regex_replaced};
use crate::sets::same_chars;
use crate::text::{
    append_chars, ascii_alnum, chars_of, is_ascii_alnum,
    is_whitespace, is_ws, split_words, string_of, words,
};
use crate::unicode::{
    decompose_canonical, drop_marks, is_mark, lower_chars, lowered, nfd_of,
};

verus! {

/// Canonical decomposition with combining marks dropped; ASCII text is unchanged.
pub open spec fn marks_removed(s: Seq<char>) -> Seq<char> {
    if is_ascii_chars(s) {
        s
    } else {
        drop_marks(nfd_of(s))
    }
}

/// The characters that a title key keeps: ASCII letters and digits, whitespace and `-`.
pub open spec fn keeps_in_title(c: char) -> bool {
    is_ascii_alnum(c) || is_ws(c) || c == '-'
}

/// `s` with each character a title key does not keep made a space.
pub open spec fn title_chars(s: Seq<char>) -> Seq<char>
    decreases s.len(),
{
    if s.len() == 0 {
        s
    } else if keeps_in_title(s.last()) {
        title_chars(s.drop_last()).push(s.last())
    } else {
        title_chars(s.drop_last()).push(' ')
    }
}

/// The key of a title or a name in the works index: lower-cased, decomposed (NFD) without
/// combining marks, characters other than ASCII letters, digits, whitespace and `-` made
/// spaces, trimmed, each run of whitespace replaced by one space.
pub open spec fn text_key(s: Seq<char>) -> Seq<char> {
    regex_replaced(
        r"\s+"@,
        trim_both(title_chars(marks_removed(lowered(s))), TrimSet::Whitespace),
        " "@,
    )
}

/// The key of a title or a name in the works index.
pub fn normalize_text(s: &str) -> (r: String)
    ensures
        r@ == text_key(s@),
{
    let low = string_of(&lower_chars(&chars_of(s)));
    let d = chars_of(decompose_canonical(low.as_str()).as_str());
    let mut kept: Vec<char> = Vec::new();
    let mut i: usize = 0;
    while i < d.len()
        invariant
            i <= d@.len(),
            d@ == nfd_of(low@),
            is_ascii_chars(low@) ==> d@ == low@,
            kept@ == title_chars(drop_marks(d@.subrange(0, i as int))),
            is_ascii_chars(low@) ==> kept@ == title_chars(d@.subrange(0, i as int)),
        decreases d@.len() - i,
    {
        let c = d[i];
        let ghost sub = d@.subrange(0, i + 1);
        assert(sub.drop_last() =~= d@.subrange(0, i as int));
        assert(is_ascii_chars(low@) ==> '\0' <= d@[i as int] <= '\u{7f}');
        let mark = is_mark(c);
        assert(drop_marks(d@.subrange(0, i as int)).push(c).drop_last() =~= drop_marks(
            d@.subrange(0, i as int),
        ));
        assert(d@.subrange(0, i as int).push(c).drop_last() =~= d@.subrange(0, i as int));
        assert(sub =~= d@.subrange(0, i as int).push(c));
        if !mark {
            if ascii_alnum(c) || is_whitespace(c) || c == '-' {
                kept.push(c);
            } else {
                kept.push(' ');
            }
        }
        i = i + 1;
    }
    assert(d@.subrange(0, d@.len() as int) =~= d@);
    let trimmed = string_of(&trim_chars(&kept, TrimSet::Whitespace));
    regex_replace_all(r"\s+", trimmed.as_str(), " ")
}

/// The key of an author's `first last` name in the works index.
pub open spec fn person_key(first: Seq<char>, last: Seq<char>) -> Seq<char> {
    text_key(first + seq![' '] + last)
}

/// The key of an author's `first last` name.
pub fn normalize_name(first: &str, last: &str) -> (r: String)
    ensures
        r@ == person_key(first@, last@),
{
    let mut v = chars_of(first);
    v.push(' ');
    append_chars(&mut v, &chars_of(last));
    assert(v@ =~= first@ + seq![' '] + last@);
    let s = string_of(&v);
    normalize_text(s.as_str())
}

/// The directory name of an author: `Last, First`.
pub open spec fn author_dir_of(first: Seq<char>, last: Seq<char>) -> Seq<char> {
    last + seq![',', ' '] + first
}

/// The directory name of an author: `Last, First`.
pub fn format_author_dir(first: &str, last: &str) -> (r: String)
    ensures
        r@ == author_dir_of(first@, last@),
{
    let mut v = chars_of(last);
    v.push(',');
    v.push(' ');
    append_chars(&mut v, &chars_of(first));
    string_of(&v)
}

/// The file name a work is placed under: `Title - First Last.ext`.
pub open spec fn placed_name_of(title: Seq<char>, first: Seq<char>, last: Seq<char>, ext: Seq<char>) -> Seq<char> {
    title + seq![' ', '-', ' '] + first + seq![' '] + last + seq!['.'] + ext
}

/// The file name a work is placed under: `Title - First Last.ext`.
pub fn placed_file_name(title: &str, first: &str, last: &str, ext: &str) -> (r: String)
    ensures
        r@ == placed_name_of(title@, first@, last@, ext@),
{
    let mut v = chars_of(title);
    v.push(' ');
    v.push('-');
    v.push(' ');
    append_chars(&mut v, &chars_of(first));
    v.push(' ');
    append_chars(&mut v, &chars_of(last));
    v.push('.');
    append_chars(&mut v, &chars_of(ext));
    string_of(&v)
}

/// How many leading characters of a title key the first catalog probe matches on.
pub const PREFIX_PROBE_CHARS: usize = 15;

/// The first probe's pattern: at most the first 15 characters of the trimmed key, then `*`.
pub open spec fn prefix_probe_of(key: Seq<char>) -> Seq<char> {
    let t = trim_both(key, TrimSet::Whitespace);
    let n = if t.len() < PREFIX_PROBE_CHARS {
        t.len()
    } else {
        PREFIX_PROBE_CHARS as nat
    };
    t.subrange(0, n as int) + seq!['*']
}

/// The patterns of the catalog probes on a title: the 15-character prefix of its key, its
/// whole key, and the lower-cased title as the guess gave it, each followed by `*`; the first two are
/// `None` when the key is blank.
pub fn title_probe_patterns(title_key: &str, lowered_title: &str) -> (r: (
    Option<String>,
    Option<String>,
    String,
))
    ensures
        r.0 is Some == (trim_both(title_key@, TrimSet::Whitespace).len() > 0),
        r.0 is Some ==> r.0.unwrap()@ == prefix_probe_of(title_key@),
        r.1 is Some == (trim_both(title_key@, TrimSet::Whitespace).len() > 0),
        r.1 is Some ==> r.1.unwrap()@ == trim_both(title_key@, TrimSet::Whitespace) + seq!['*'],
        r.2@ == lowered_title@ + seq!['*'],
{
    let t = trim_chars(&chars_of(title_key), TrimSet::Whitespace);
    let mut raw = chars_of(lowered_title);
    raw.push('*');
    if t.len() == 0 {
        return (None, None, string_of(&raw));
    }
    let n = if t.len() < PREFIX_PROBE_CHARS {
        t.len()
    } else {
        PREFIX_PROBE_CHARS
    };
    let mut p: Vec<char> = Vec::new();
    let mut i: usize = 0;
    while i < n
        invariant
            i <= n <= t@.len(),
            p@ =~= t@.subrange(0, i as int),
        decreases n - i,
    {
        p.push(t[i]);
        i = i + 1;
    }
    p.push('*');
    let mut whole = t.clone();
    whole.push('*');
    (Some(string_of(&p)), Some(string_of(&whole)), string_of(&raw))
}

/// The comma-separated alternate ids of a catalog row, each trimmed; none for an empty
/// field.
pub open spec fn alternates_of(csv: Seq<char>) -> Seq<Seq<char>> {
    if csv.len() == 0 {
        Seq::empty()
    } else {
        Seq::new(comma_fields(csv).len(), |i: int| trim_both(comma_fields(csv)[i], TrimSet::Whitespace))
    }
}

/// The fields of `s` between commas (what `str::split(',')` yields).
pub open spec fn comma_fields(s: Seq<char>) -> Seq<Seq<char>>
    decreases s.len(),
{
    if s.len() == 0 {
        seq![Seq::empty()]
    } else {
        let prev = comma_fields(s.drop_last());
        if s.last() == ',' {
            prev.push(Seq::empty())
        } else {
            prev.update(prev.len() - 1, prev.last().push(s.last()))
        }
    }
}

/// The fields of `v` between commas.
pub fn split_commas(v: &Vec<char>) -> (r: Vec<Vec<char>>)
    ensures
        r.deep_view() == comma_fields(v@),
        r@.len() > 0,
{
    let e: Vec<char> = Vec::new();
    assert(e.deep_view() =~= Seq::<char>::empty());
    let mut fields: Vec<Vec<char>> = vec![e];
    let mut i: usize = 0;
    assert(v@.subrange(0, 0) =~= Seq::<char>::empty());
    assert(fields.deep_view() =~= comma_fields(v@.subrange(0, 0)));
    while i < v.len()
        invariant
            i <= v@.len(),
            fields.deep_view() == comma_fields(v@.subrange(0, i as int)),
            fields@.len() > 0,
        decreases v@.len() - i,
    {
        let ghost sub = v@.subrange(0, i + 1);
        assert(sub.drop_last() =~= v@.subrange(0, i as int));
        let ghost prev = fields.deep_view();
        if v[i] == ',' {
            let e: Vec<char> = Vec::new();
            assert(e.deep_view() =~= Seq::<char>::empty());
            fields.push(e);
            assert(fields.deep_view() =~= prev.push(Seq::empty()));
        } else {
            let last = fields.len() - 1;
            let mut f = fields[last].clone();
            assert(fields@[last as int].deep_view() =~= fields@[last as int]@);
            assert(f@ == prev.last());
            f.push(v[i]);
            assert(f.deep_view() =~= f@);
            fields.set(last, f);
            assert(fields.deep_view() =~= prev.update(prev.len() - 1, prev.last().push(v@[i as int])));
        }
        i = i + 1;
    }
    assert(v@.subrange(0, v@.len() as int) =~= v@);
    fields
}

/// The alternate ids of a catalog row.
pub fn parse_alternates(csv: &str) -> (r: Vec<String>)
    ensures
        r@.len() == alternates_of(csv@).len(),
        forall|i: int| 0 <= i < r@.len() ==> (#[trigger] r@[i])@ == alternates_of(csv@)[i],
{
    let v = chars_of(csv);
    let mut out: Vec<String> = Vec::new();
    if v.len() == 0 {
        return out;
    }
    let fields = split_commas(&v);
    let mut k: usize = 0;
    while k < fields.len()
        invariant
            k <= fields@.len(),
            fields.deep_view() == comma_fields(v@),
            v@.len() > 0,
            out@.len() == k,
            forall|j: int| 0 <= j < k ==> (#[trigger] out@[j])@ == alternates_of(v@)[j],
        decreases fields@.len() - k,
    {
        assert(fields@[k as int].deep_view() =~= fields@[k as int]@);
        out.push(string_of(&trim_chars(&fields[k], TrimSet::Whitespace)));
        k = k + 1;
    }
    out
}

/// Whether `ids` holds `x`.
pub open spec fn holds_id(ids: Seq<String>, x: Seq<char>) -> bool {
    exists|i: int| 0 <= i < ids.len() && (#[trigger] ids[i])@ == x
}

fn has_id(ids: &Vec<String>, x: &Vec<char>) -> (r: bool)
    ensures
        r == holds_id(ids@, x@),
{
    let mut i: usize = 0;
    while i < ids.len()
        invariant
            i <= ids@.len(),
            forall|j: int| 0 <= j < i ==> (#[trigger] ids@[j])@ != x@,
        decreases ids@.len() - i,
    {
        if same_chars(&chars_of(ids[i].as_str()), x) {
            return true;
        }
        i = i + 1;
    }
    false
}

/// Whether a work row belongs to one of the candidate author ids: by its author id, or by
/// one of the ids of its comma-separated alternates field taken as whole fields.
pub open spec fn work_matches(author_id: Seq<char>, alternates: Seq<char>, candidates: Seq<String>) -> bool {
    holds_id(candidates, author_id) || (alternates.len() > 0 && exists|i: int|
        0 <= i < candidates.len() && comma_fields(alternates).contains((#[trigger] candidates[i])@))
}

/// Whether a work row belongs to one of the candidate author ids.
pub fn work_matches_authors(author_id: &str, alternates: &str, candidates: &Vec<String>) -> (r: bool)
    ensures
        r == work_matches(author_id@, alternates@, candidates@),
{
    if has_id(candidates, &chars_of(author_id)) {
        return true;
    }
    let v = chars_of(alternates);
    if v.len() == 0 {
        return false;
    }
    let fields = split_commas(&v);
    let mut c: usize = 0;
    while c < candidates.len()
        invariant
            c <= candidates@.len(),
            fields.deep_view() == comma_fields(v@),
            forall|j: int| 0 <= j < c ==> !comma_fields(v@).contains((#[trigger] candidates@[j])@),
            v@ == alternates@,
            v@.len() > 0,
        decreases candidates@.len() - c,
    {
        if crate::sets::contains_item(&fields, &chars_of(candidates[c].as_str())) {
            assert(comma_fields(alternates@).contains(candidates@[c as int]@));
            return true;
        }
        c = c + 1;
    }
    false
}

/// Whether a title hit stands with the author the guess named: a work without author id
/// stands, else its author must be the author found or one of its alternates.
pub open spec fn author_consistent_of(work_author: Seq<char>, found: Seq<char>, alternates: Seq<String>) -> bool {
    work_author.len() == 0 || work_author == found || holds_id(alternates, work_author)
}

/// Whether a title hit stands with the author the guess named.
pub fn author_consistent(work_author: &str, found: &str, alternates: &Vec<String>) -> (r: bool)
    ensures
        r == author_consistent_of(work_author@, found@, alternates@),
{
    let w = chars_of(work_author);
    w.len() == 0 || same_chars(&w, &chars_of(found)) || has_id(alternates, &w)
}

/// The pairs `(ws[i], ws[j])` for `j` after `i`, in order of `j`.
pub open spec fn row_pairs(ws: Seq<Seq<char>>, i: int) -> Seq<(Seq<char>, Seq<char>)> {
    Seq::new((ws.len() - i - 1) as nat, |t: int| (ws[i], ws[i + 1 + t]))
}

/// The pairs of the first `i` rows.
pub open spec fn pairs_upto(ws: Seq<Seq<char>>, i: int) -> Seq<(Seq<char>, Seq<char>)>
    decreases i,
{
    if i <= 0 {
        Seq::empty()
    } else {
        pairs_upto(ws, i - 1) + row_pairs(ws, i - 1)
    }
}

/// The word pairs `(t_i, t_j)`, `i < j`, of a text, in order of `i` then `j`: the order in
/// which they are tried as `first last`.
pub open spec fn word_pairs(s: Seq<char>) -> Seq<(Seq<char>, Seq<char>)> {
    pairs_upto(words(s), words(s).len() as int)
}

/// The characters of each pair of strings.
pub open spec fn pair_views(r: Seq<(String, String)>) -> Seq<(Seq<char>, Seq<char>)> {
    Seq::new(r.len(), |k: int| (r[k].0@, r[k].1@))
}

/// The word pairs of a file-name key, in the order they are tried.
pub fn raw_word_pairs(key: &str) -> (r: Vec<(String, String)>)
    ensures
        pair_views(r@) == word_pairs(key@),
{
    let ws = split_words(&chars_of(key));
    let n = ws.len();
    let ghost wv = words(key@);
    let mut out: Vec<(String, String)> = Vec::new();
    let mut i: usize = 0;
    while i < n
        invariant
            n == ws@.len(),
            ws.deep_view() == wv,
            i <= n,
            pair_views(out@) =~= pairs_upto(wv, i as int),
        decreases n - i,
    {
        let mut j: usize = i + 1;
        while j < n
            invariant
                n == ws@.len(),
                ws.deep_view() == wv,
                i < n,
                i + 1 <= j <= n,
                pair_views(out@) =~= pairs_upto(wv, i as int) + row_pairs(wv, i as int).subrange(
                    0,
                    j - i - 1,
                ),
            decreases n - j,
        {
            assert(ws@[i as int].deep_view() =~= ws@[i as int]@);
            assert(ws@[j as int].deep_view() =~= ws@[j as int]@);
            let ghost before = pair_views(out@);
            out.push((string_of(&ws[i]), string_of(&ws[j])));
            assert(pair_views(out@) =~= before.push((wv[i as int], wv[j as int])));
            assert(row_pairs(wv, i as int).subrange(0, j - i) =~= row_pairs(wv, i as int).subrange(
                0,
                j - i - 1,
            ).push((wv[i as int], wv[j as int])));
            j = j + 1;
        }
        assert(row_pairs(wv, i as int).subrange(0, n - i - 1) =~= row_pairs(wv, i as int));
        i = i + 1;
    }
    out
}

/// The catalog mode a file is sorted under.
#[derive(Clone, Copy, Debug, PartialEq, Eq, Structural)]
pub enum SortMode {
    Strict,
    Normal,
    Full,
}

/// The disposition a state record names.
#[derive(Clone, Copy, Debug, PartialEq, Eq, Structural)]
pub enum RecordMode {
    Strict,
    Normal,
    FullNormal,
    FullRaw,
    StrictFailTitle,
    StrictFailAuthor,
    StrictFail,
    NormalFail,
    FullFail,
}

/// The modes after which a file is not processed again.
pub open spec fn is_success(m: RecordMode) -> bool {
    m == RecordMode::Strict || m == RecordMode::Normal || m == RecordMode::FullNormal || m
        == RecordMode::FullRaw
}

impl RecordMode {
    /// Whether a record of this mode stops the file being processed again.
    pub fn is_success(&self) -> (r: bool)
        ensures
            r == is_success(*self),
    {
        match self {
            RecordMode::Strict | RecordMode::Normal | RecordMode::FullNormal | RecordMode::FullRaw => true,
            _ => false,
        }
    }

    /// The tag written in the state log.
    pub fn tag(&self) -> (r: String)
        ensures
            r@ == mode_tag(*self),
    {
        let v: Vec<char> = match self {
            RecordMode::Strict => vec!['s', 't', 'r', 'i', 'c', 't'],
            RecordMode::Normal => vec!['n', 'o', 'r', 'm', 'a', 'l'],
            RecordMode::FullNormal => vec!['f', 'u', 'l', 'l', '-', 'n', 'o', 'r', 'm', 'a', 'l'],
            RecordMode::FullRaw => vec!['f', 'u', 'l', 'l', '-', 'r', 'a', 'w'],
            RecordMode::StrictFailTitle => vec![
                's', 't', 'r', 'i', 'c', 't', '-', 'f', 'a', 'i', 'l', '-', 't', 'i', 't', 'l', 'e',
            ],
            RecordMode::StrictFailAuthor => vec![
                's', 't', 'r', 'i', 'c', 't', '-', 'f', 'a', 'i', 'l', '-', 'a', 'u', 't', 'h', 'o', 'r',
            ],
            RecordMode::StrictFail => vec!['s', 't', 'r', 'i', 'c', 't', '-', 'f', 'a', 'i', 'l'],
            RecordMode::NormalFail => vec!['n', 'o', 'r', 'm', 'a', 'l', '-', 'f', 'a', 'i', 'l'],
            RecordMode::FullFail => vec!['f', 'u', 'l', 'l', '-', 'f', 'a', 'i', 'l'],
        };
        proof {
            assert(v@ =~= mode_tag(*self));
        }
        string_of(&v)
    }
}

/// The tag of each mode in the state log.
pub open spec fn mode_tag(m: RecordMode) -> Seq<char> {
    match m {
        RecordMode::Strict => seq!['s', 't', 'r', 'i', 'c', 't'],
        RecordMode::Normal => seq!['n', 'o', 'r', 'm', 'a', 'l'],
        RecordMode::FullNormal => seq!['f', 'u', 'l', 'l', '-', 'n', 'o', 'r', 'm', 'a', 'l'],
        RecordMode::FullRaw => seq!['f', 'u', 'l', 'l', '-', 'r', 'a', 'w'],
        RecordMode::StrictFailTitle => seq![
            's', 't', 'r', 'i', 'c', 't', '-', 'f', 'a', 'i', 'l', '-', 't', 'i', 't', 'l', 'e',
        ],
        RecordMode::StrictFailAuthor => seq![
            's', 't', 'r', 'i', 'c', 't', '-', 'f', 'a', 'i', 'l', '-', 'a', 'u', 't', 'h', 'o', 'r',
        ],
        RecordMode::StrictFail => seq!['s', 't', 'r', 'i', 'c', 't', '-', 'f', 'a', 'i', 'l'],
        RecordMode::NormalFail => seq!['n', 'o', 'r', 'm', 'a', 'l', '-', 'f', 'a', 'i', 'l'],
        RecordMode::FullFail => seq!['f', 'u', 'l', 'l', '-', 'f', 'a', 'i', 'l'],
    }
}

/// Where a file goes.
#[derive(Clone, Copy, Debug, PartialEq, Eq, Structural)]
pub enum Placement {
    /// Under the author's directory in the sorted tree, keeping its file name.
    SortedVerbatim,
    /// Under the author's directory in the sorted tree, as `Title - First Last.ext`.
    SortedRenamed,
    FailAuthor,
    FailTitle,
}

/// What the lookups for one file found.
#[derive(Clone, Copy, Debug)]
pub struct Findings {
    /// The title key is blank.
    pub title_blank: bool,
    /// The strict cascade found a work that stands with the guessed author.
    pub work_hit: bool,
    /// The guess gave both a first and a last name.
    pub names_given: bool,
    /// The guessed author (in either order) is in the catalog.
    pub author_found: bool,
    /// A word pair of the file name is a catalog author.
    pub raw_pair_found: bool,
}

/// The decision for one file: where it goes and the mode its state record names.
pub open spec fn disposition_of(mode: SortMode, f: Findings) -> (Placement, RecordMode) {
    match mode {
        SortMode::Normal => if f.names_given && f.author_found {
            (Placement::SortedVerbatim, RecordMode::Normal)
        } else {
            (Placement::FailAuthor, RecordMode::NormalFail)
        },
        SortMode::Strict => if f.title_blank {
            (Placement::FailTitle, RecordMode::StrictFailTitle)
        } else if !f.work_hit {
            (Placement::FailAuthor, RecordMode::StrictFail)
        } else if f.names_given {
            (Placement::SortedRenamed, RecordMode::Strict)
        } else {
            (Placement::FailAuthor, RecordMode::StrictFailAuthor)
        },
        SortMode::Full => if !f.title_blank && f.work_hit && f.names_given {
            (Placement::SortedRenamed, RecordMode::Strict)
        } else if f.names_given && f.author_found {
            (Placement::SortedRenamed, RecordMode::FullNormal)
        } else if f.raw_pair_found {
            (Placement::SortedVerbatim, RecordMode::FullRaw)
        } else {
            (Placement::FailAuthor, RecordMode::FullFail)
        },
    }
}

/// Decides where a file goes and what its state record says: normal mode sorts by the
/// guessed author alone; strict mode needs a non-blank title with a work hit and both
/// names; full mode, on any strict miss or failure, falls back to normal, then to a word
/// pair of the file name.
pub fn dispose(mode: SortMode, f: &Findings) -> (r: (Placement, RecordMode))
    ensures
        r == disposition_of(mode, *f),
{
    match mode {
        SortMode::Normal => {
            if f.names_given && f.author_found {
                (Placement::SortedVerbatim, RecordMode::Normal)
            } else {
                (Placement::FailAuthor, RecordMode::NormalFail)
            }
        },
        SortMode::Strict => {
            if f.title_blank {
                (Placement::FailTitle, RecordMode::StrictFailTitle)
            } else if !f.work_hit {
                (Placement::FailAuthor, RecordMode::StrictFail)
            } else if f.names_given {
                (Placement::SortedRenamed, RecordMode::Strict)
            } else {
                (Placement::FailAuthor, RecordMode::StrictFailAuthor)
            }
        },
        SortMode::Full => {
            if !f.title_blank && f.work_hit && f.names_given {
                (Placement::SortedRenamed, RecordMode::Strict)
            } else if f.names_given && f.author_found {
                (Placement::SortedRenamed, RecordMode::FullNormal)
            } else if f.raw_pair_found {
                (Placement::SortedVerbatim, RecordMode::FullRaw)
            } else {
                (Placement::FailAuthor, RecordMode::FullFail)
            }
        },
    }
}

/// Whether a title key is blank.
pub fn title_blank(title_key: &str) -> (r: bool)
    ensures
        r == (trim_both(title_key@, TrimSet::Whitespace).len() == 0),
{
    trim_chars(&chars_of(title_key), TrimSet::Whitespace).len() == 0
}

/// Whether the strict cascade runs: in strict and full mode, for a non-blank title key.
pub open spec fn strict_lookup_needed_of(mode: SortMode, title_key: Seq<char>) -> bool {
    mode != SortMode::Normal && trim_both(title_key, TrimSet::Whitespace).len() > 0
}

/// Whether the strict cascade runs for this file.
pub fn strict_lookup_needed(mode: SortMode, title_key: &str) -> (r: bool)
    ensures
        r == strict_lookup_needed_of(mode, title_key@),
{
    !matches!(mode, SortMode::Normal) && !title_blank(title_key)
}

/// Whether the word pairs of the file name are looked up: in full mode, when the other
/// findings alone would end in the fail bucket.
pub open spec fn raw_lookup_needed_of(mode: SortMode, f: Findings) -> bool {
    mode == SortMode::Full && disposition_of(mode, Findings { raw_pair_found: false, ..f }).1
        == RecordMode::FullFail
}

/// Whether the word pairs of the file name are looked up.
pub fn raw_lookup_needed(mode: SortMode, f: &Findings) -> (r: bool)
    ensures
        r == raw_lookup_needed_of(mode, *f),
{
    let without = Findings {
        title_blank: f.title_blank,
        work_hit: f.work_hit,
        names_given: f.names_given,
        author_found: f.author_found,
        raw_pair_found: false,
    };
    matches!(mode, SortMode::Full) && matches!(dispose(mode, &without).1, RecordMode::FullFail)
}

/// A file's state record names a success mode exactly when the file is placed in the sorted
/// tree; every other decision places it in a fail bucket. No decision removes the source.
pub proof fn lemma_success_iff_sorted(mode: SortMode, f: Findings)
    ensures
        is_success(disposition_of(mode, f).1) <==> (disposition_of(mode, f).0
            == Placement::SortedVerbatim || disposition_of(mode, f).0 == Placement::SortedRenamed),
{
}

/// A state record read back from the log: the file's path and the mode it names.
#[derive(Clone, Debug)]
pub struct StateRecord {
    pub path: String,
    pub mode: RecordMode,
}

/// Whether the log holds a success record for `path`.
pub open spec fn done_before(records: Seq<StateRecord>, path: Seq<char>) -> bool {
    exists|i: int|
        0 <= i < records.len() && (#[trigger] records[i]).path@ == path && is_success(records[i].mode)
}

/// Whether the log holds a success record for `path`: such a file is skipped on resume;
/// failures are tried again.
pub fn already_processed(records: &Vec<StateRecord>, path: &str) -> (r: bool)
    ensures
        r == done_before(records@, path@),
{
    let p = chars_of(path);
    let mut i: usize = 0;
    while i < records.len()
        invariant
            i <= records@.len(),
            p@ == path@,
            forall|j: int| 0 <= j < i ==> !((#[trigger] records@[j]).path@ == path@ && is_success(records@[j].mode)),
        decreases records@.len() - i,
    {
        if records[i].mode.is_success() && same_chars(&chars_of(records[i].path.as_str()), &p) {
            return true;
        }
        i = i + 1;
    }
    false
}

/// Scan of a reply for its first balanced `{...}`: brace depth, where the open object
/// started, and the object's bounds once it closes (then the scan stops changing).
pub type JsonScan = (int, Option<int>, Option<(int, int)>);

/// The scan over the first `n` characters.
pub open spec fn json_scan(s: Seq<char>, n: int) -> JsonScan
    decreases n,
{
    if n <= 0 {
        (0, None, None)
    } else {
        let st = json_scan(s, n - 1);
        let i = n - 1;
        if st.2 is Some {
            st
        } else if s[i] == '{' {
            (st.0 + 1, if st.0 == 0 {
                Some(i)
            } else {
                st.1
            }, None)
        } else if s[i] == '}' {
            let d = if st.0 > 0 {
                st.0 - 1
            } else {
                st.0
            };
            if d == 0 && st.1 is Some {
                (d, st.1, Some((st.1.unwrap(), i)))
            } else {
                (d, st.1, None)
            }
        } else {
            st
        }
    }
}

/// The first top-level `{...}` of a reply, if one closes.
pub open spec fn first_json_object(s: Seq<char>) -> Option<Seq<char>> {
    match json_scan(s, s.len() as int).2 {
        Some((a, b)) => Some(s.subrange(a, b + 1)),
        None => None,
    }
}

proof fn lemma_json_scan_bounds(s: Seq<char>, n: int)
    requires
        0 <= n <= s.len(),
    ensures
        json_scan(s, n).0 >= 0,
        json_scan(s, n).1 is Some ==> 0 <= json_scan(s, n).1.unwrap() < n,
        json_scan(s, n).2 is Some ==> 0 <= json_scan(s, n).2.unwrap().0 <= json_scan(
            s,
            n,
        ).2.unwrap().1 < n,
        json_scan(s, n).2 is Some ==> json_scan(s, n).1 == Some(json_scan(s, n).2.unwrap().0),
    decreases n,
{
    if n > 0 {
        lemma_json_scan_bounds(s, n - 1);
    }
}

proof fn lemma_json_scan_stays(s: Seq<char>, n: int, m: int)
    requires
        0 <= n <= m,
        json_scan(s, n).2 is Some,
    ensures
        json_scan(s, m) == json_scan(s, n),
    decreases m - n,
{
    if m > n {
        lemma_json_scan_stays(s, n, m - 1);
    }
}

/// The first balanced top-level `{...}` of a reply that may hold other text around it.
pub fn extract_first_json_object(s: &str) -> (r: Option<String>)
    ensures
        r is Some == first_json_object(s@) is Some,
        r is Some ==> r.unwrap()@ == first_json_object(s@).unwrap(),
{
    let v = chars_of(s);
    let n = v.len();
    let mut depth: usize = 0;
    let mut start: Option<usize> = None;
    let mut i: usize = 0;
    while i < v.len()
        invariant
            i <= v@.len(),
            n == v@.len(),
            v@ == s@,
            json_scan(v@, i as int).2 is None,
            json_scan(v@, i as int).0 == depth as int,
            json_scan(v@, i as int).1 == (match start {
                Some(x) => Some(x as int),
                None => None::<int>,
            }),
            depth <= i,
        decreases v@.len() - i,
    {
        proof {
            lemma_json_scan_bounds(v@, i as int);
        }
        let c = v[i];
        if c == '{' {
            if depth == 0 {
                start = Some(i);
            }
            depth = depth + 1;
        } else if c == '}' {
            if depth > 0 {
                depth = depth - 1;
            }
            if depth == 0 {
                if let Some(st) = start {
                    proof {
                        lemma_json_scan_bounds(v@, i + 1);
                        lemma_json_scan_stays(v@, i + 1, v@.len() as int);
                    }
                    let mut out: Vec<char> = Vec::new();
                    let mut k: usize = st;
                    while k <= i
                        invariant
                            st <= k <= i + 1,
                            i < v@.len(),
                            n == v@.len(),
                            out@ =~= v@.subrange(st as int, k as int),
                        decreases i + 1 - k,
                    {
                        out.push(v[k]);
                        k = k + 1;
                    }
                    return Some(string_of(&out));
                }
            }
        }
        i = i + 1;
    }
    None
}

/// The instruction that opens a prompt with hints.
pub open spec fn prompt_header() -> Seq<char> {
    "Tu dois répondre STRICTEMENT en JSON avec les clés: "@
        + "{\"title\", \"title_normalized\", \"author_firstname\", \"author_lastname\"}.\n"@
        + "Si possible, choisis l'auteur parmi la liste partielle suivante.\n"@
        + "Auteurs connus (partiel): "@
}

/// The byte budget after which no further author hint is added.
pub const HINT_BUDGET_BYTES: usize = 40_000;

/// The prompt after the first `i` hints: hints separated by `; `, the list closed once the
/// text passes the byte budget.
pub open spec fn hint_list(hints: Seq<String>, i: int) -> (Seq<char>, bool)
    decreases i,
{
    if i <= 0 {
        (prompt_header(), false)
    } else {
        let (t, stop) = hint_list(hints, i - 1);
        if stop {
            (t, true)
        } else {
            let t2 = (if i - 1 > 0 {
                t + "; "@
            } else {
                t
            }) + hints[i - 1]@;
            (t2, encode_utf8(t2).len() > HINT_BUDGET_BYTES)
        }
    }
}

/// The prompt sent for one file: the base alone without hints; else an instruction to
/// answer in JSON, the known authors as hints (up to the byte budget), a blank line and the
/// base.
pub open spec fn prompt_of(base: Seq<char>, hints: Seq<String>) -> Seq<char> {
    if hints.len() == 0 {
        base
    } else {
        hint_list(hints, hints.len() as int).0 + "\n\n"@ + base
    }
}

/// The prompt sent for one file, with known author names as hints.
pub fn build_llm_prompt(base: &str, author_hints: &Vec<String>) -> (r: String)
    ensures
        r@ == prompt_of(base@, author_hints@),
{
    if author_hints.len() == 0 {
        return base.to_owned();
    }
    let mut prompt = String::from_str("Tu dois répondre STRICTEMENT en JSON avec les clés: ");
    prompt.append("{\"title\", \"title_normalized\", \"author_firstname\", \"author_lastname\"}.\n");
    prompt.append("Si possible, choisis l'auteur parmi la liste partielle suivante.\n");
    prompt.append("Auteurs connus (partiel): ");
    let mut i: usize = 0;
    let mut stopped = false;
    while i < author_hints.len() && !stopped
        invariant
            i <= author_hints@.len(),
            (prompt@, stopped) == hint_list(author_hints@, i as int),
        decreases author_hints@.len() - i,
    {
        if i > 0 {
            prompt.append("; ");
        }
        prompt.append(author_hints[i].as_str());
        stopped = prompt.as_str().as_bytes().len() > HINT_BUDGET_BYTES;
        i = i + 1;
    }
    proof {
        if stopped {
            lemma_hints_stop(author_hints@, i as int, author_hints@.len() as int);
        }
    }
    prompt.append("\n\n");
    prompt.append(base);
    prompt
}

proof fn lemma_hints_stop(hints: Seq<String>, i: int, n: int)
    requires
        0 <= i <= n,
        hint_list(hints, i).1,
    ensures
        hint_list(hints, n) == hint_list(hints, i),
    decreases n - i,
{
    if n > i {
        lemma_hints_stop(hints, i, n - 1);
    }
}

/// What a catalog probe on a title matches.
#[derive(Clone, Copy, Debug, PartialEq, Eq, Structural)]
pub enum ProbeKind {
    /// `title_normalized GLOB pattern`.
    KeyGlob,
    /// `lower(title) GLOB pattern`.
    TitleGlob,
    /// `title_normalized = pattern`.
    KeyExact,
}

/// One probe of the strict lookup cascade.
#[derive(Clone, Debug)]
pub struct Probe {
    pub kind: ProbeKind,
    pub pattern: String,
}

pub open spec fn probe_views(ps: Seq<Probe>) -> Seq<(ProbeKind, Seq<char>)> {
    Seq::new(ps.len(), |i: int| (ps[i].kind, ps[i].pattern@))
}

/// The strict lookup cascade, in order; the first probe with a hit gives the work: the
/// 15-character prefix of the key, the whole key (both only for a non-blank key), the
/// lower-cased title, then the exact key.
pub open spec fn probes_of(key: Seq<char>, lowered_title: Seq<char>) -> Seq<(ProbeKind, Seq<char>)> {
    let t = trim_both(key, TrimSet::Whitespace);
    let globs = if t.len() > 0 {
        seq![(ProbeKind::KeyGlob, prefix_probe_of(key)), (ProbeKind::KeyGlob, t + seq!['*'])]
    } else {
        Seq::empty()
    };
    globs + seq![(ProbeKind::TitleGlob, lowered_title + seq!['*']), (ProbeKind::KeyExact, key)]
}

/// The probes of the strict lookup cascade, in the order they are tried.
pub fn strict_probes(title_key: &str, lowered_title: &str) -> (r: Vec<Probe>)
    ensures
        probe_views(r@) == probes_of(title_key@, lowered_title@),
{
    let (prefix, whole, raw) = title_probe_patterns(title_key, lowered_title);
    let mut r: Vec<Probe> = Vec::new();
    match (prefix, whole) {
        (Some(p), Some(w)) => {
            r.push(Probe { kind: ProbeKind::KeyGlob, pattern: p });
            r.push(Probe { kind: ProbeKind::KeyGlob, pattern: w });
        },
        _ => {},
    }
    r.push(Probe { kind: ProbeKind::TitleGlob, pattern: raw });
    r.push(Probe { kind: ProbeKind::KeyExact, pattern: title_key.to_owned() });
    assert(probe_views(r@) =~= probes_of(title_key@, lowered_title@));
    r
}

/// A row of the works table.
#[derive(Clone, Debug)]
pub struct WorkRow {
    pub work_id: String,
    pub title: String,
    pub author_id: String,
}

/// Two optional rows with the same fields.
pub open spec fn same_work(a: Option<WorkRow>, b: Option<WorkRow>) -> bool {
    match (a, b) {
        (None, None) => true,
        (Some(x), Some(y)) => x.work_id@ == y.work_id@ && x.title@ == y.title@ && x.author_id@
            == y.author_id@,
        _ => false,
    }
}

/// The work strict mode keeps: the cascade's hit, else (when the guess named a catalog
/// author) the hit among that author's works; dropped when the guessed author is in the
/// catalog and the work's author is neither that author nor one of its alternates.
pub open spec fn kept_work(
    cascade: Option<WorkRow>,
    by_author: Option<WorkRow>,
    guessed: Option<(String, Vec<String>)>,
) -> Option<WorkRow> {
    let hit = if cascade is Some {
        cascade
    } else if guessed is Some {
        by_author
    } else {
        None
    };
    match (hit, guessed) {
        (Some(w), Some(g)) => if author_consistent_of(w.author_id@, g.0@, g.1@) {
            hit
        } else {
            None
        },
        _ => hit,
    }
}

fn copy_work(w: &WorkRow) -> (r: WorkRow)
    ensures
        same_work(Some(r), Some(*w)),
{
    WorkRow { work_id: w.work_id.clone(), title: w.title.clone(), author_id: w.author_id.clone() }
}

/// The work strict mode keeps, from the cascade's hit, the hit among the guessed author's
/// works, and the guessed author found in the catalog (its id and alternates).
pub fn strict_work(
    cascade: &Option<WorkRow>,
    by_author: &Option<WorkRow>,
    guessed: &Option<(String, Vec<String>)>,
) -> (r: Option<WorkRow>)
    ensures
        same_work(r, kept_work(*cascade, *by_author, *guessed)),
{
    let hit: &Option<WorkRow> = if cascade.is_some() {
        cascade
    } else if guessed.is_some() {
        by_author
    } else {
        &None
    };
    match hit {
        None => None,
        Some(w) => {
            match guessed {
                Some((aid, alts)) => {
                    if author_consistent(w.author_id.as_str(), aid.as_str(), alts) {
                        Some(copy_work(w))
                    } else {
                        None
                    }
                },
                None => Some(copy_work(w)),
            }
        },
    }
}

/// A works row with the same title key as the guess, and its alternates field.
#[derive(Clone, Debug)]
pub struct WorkCandidate {
    pub row: WorkRow,
    pub alternates: String,
}

/// The first row that belongs to one of the candidate author ids, by its author id or its
/// alternates.
pub fn first_matching_work(rows: &Vec<WorkCandidate>, ids: &Vec<String>) -> (r: Option<usize>)
    ensures
        r is Some <==> exists|k: int|
            0 <= k < rows@.len() && work_matches(
                (#[trigger] rows@[k]).row.author_id@,
                rows@[k].alternates@,
                ids@,
            ),
        r is Some ==> r.unwrap() < rows@.len() && work_matches(
            rows@[r.unwrap() as int].row.author_id@,
            rows@[r.unwrap() as int].alternates@,
            ids@,
        ),
        r is Some ==> forall|j: int|
            0 <= j < r.unwrap() ==> !work_matches(
                (#[trigger] rows@[j]).row.author_id@,
                rows@[j].alternates@,
                ids@,
            ),
{
    let mut i: usize = 0;
    while i < rows.len()
        invariant
            i <= rows@.len(),
            forall|j: int|
                0 <= j < i ==> !work_matches(
                    (#[trigger] rows@[j]).row.author_id@,
                    rows@[j].alternates@,
                    ids@,
                ),
        decreases rows@.len() - i,
    {
        if work_matches_authors(rows[i].row.author_id.as_str(), rows[i].alternates.as_str(), ids) {
            return Some(i);
        }
        i = i + 1;
    }
    None
}

/// The title key of a guess: its normalized title when that is not blank, else the key of
/// its title; empty without a title.
pub open spec fn title_key_of(title: Option<String>, title_normalized: Option<String>) -> Seq<char> {
    if title_normalized is Some && trim_both(title_normalized.unwrap()@, TrimSet::Whitespace).len() > 0 {
        text_key(title_normalized.unwrap()@)
    } else if title is Some {
        text_key(title.unwrap()@)
    } else {
        Seq::empty()
    }
}

/// The title key of a guess.
pub fn choose_title_key(title: &Option<String>, title_normalized: &Option<String>) -> (r: String)
    ensures
        r@ == title_key_of(*title, *title_normalized),
{
    if let Some(tn) = title_normalized {
        if trim_chars(&chars_of(tn.as_str()), TrimSet::Whitespace).len() > 0 {
            return normalize_text(tn.as_str());
        }
    }
    match title {
        Some(t) => normalize_text(t.as_str()),
        None => String::new(),
    }
}

/// The (first, last) that normal mode files a book under: both names are needed; the guess
/// as given when `first last` is a catalog author, else swapped when `last first` is.
pub open spec fn normal_author_of(first: Seq<char>, last: Seq<char>, direct: bool, reversed: bool) -> Option<
    (Seq<char>, Seq<char>),
> {
    if first.len() == 0 || last.len() == 0 {
        None
    } else if direct {
        Some((first, last))
    } else if reversed {
        Some((last, first))
    } else {
        None
    }
}

/// The (first, last) that normal mode files a book under; `direct` and `reversed` say
/// whether `first last` and `last first` are catalog authors (`reversed` is read only when
/// `direct` is false).
pub fn normal_author(first: &str, last: &str, direct: bool, reversed: bool) -> (r: Option<(String, String)>)
    ensures
        r is Some == normal_author_of(first@, last@, direct, reversed) is Some,
        r is Some ==> (r.unwrap().0@, r.unwrap().1@) == normal_author_of(first@, last@, direct, reversed).unwrap(),
{
    if first.is_empty() || last.is_empty() {
        None
    } else if direct {
        Some((first.to_owned(), last.to_owned()))
    } else if reversed {
        Some((last.to_owned(), first.to_owned()))
    } else {
        None
    }
}

/// Whether a word pair of a file-name key is accepted as the author: `first last` is a
/// catalog author and both words occur in the key.
pub fn raw_pair_accepted(key: &str, first: &str, last: &str, in_catalog: bool) -> (r: bool)
    ensures
        r == (in_catalog && crate::alias::occurs_in(key@, first@) && crate::alias::occurs_in(
            key@,
            last@,
        )),
{
    let k = chars_of(key);
    in_catalog && crate::alias::find_sub(&k, &chars_of(first)) && crate::alias::find_sub(
        &k,
        &chars_of(last),
    )
}

/// The title a placed file is named after: for a strict hit, the online title when one was
/// fetched, else the catalog's; otherwise the guessed title, else the file name.
pub open spec fn final_title_of(
    strict: bool,
    online: Option<String>,
    db_title: Seq<char>,
    guessed: Option<String>,
    filename: Seq<char>,
) -> Seq<char> {
    if strict {
        if online is Some {
            online.unwrap()@
        } else {
            db_title
        }
    } else if guessed is Some {
        guessed.unwrap()@
    } else {
        filename
    }
}

/// The title a placed file is named after.
pub fn choose_final_title(
    strict: bool,
    online: &Option<String>,
    db_title: &str,
    guessed: &Option<String>,
    filename: &str,
) -> (r: String)
    ensures
        r@ == final_title_of(strict, *online, db_title@, *guessed, filename@),
{
    if strict {
        match online {
            Some(t) => t.clone(),
            None => db_title.to_owned(),
        }
    } else {
        match guessed {
            Some(t) => t.clone(),
            None => filename.to_owned(),
        }
    }
}

} // verus!
