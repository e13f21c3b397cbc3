use vstd::prelude::*;
use vstd::utf8::encode_utf8;
use crate::score::{
    length_ratio_of, ngram_ratio_of, prefix_ratio_of, score_pair, seq_ratio_of, suffix_ratio_of,
    token_ratio_of, Frac, Scores,
};
use crate::text::{append_chars, chars_of, string_of};

verus! {

/// Once the best composite score reaches this many millionths (0.85 in average, summed over
/// six metrics), no further variant is scanned.
pub const EARLY_EXIT_TOTAL: u64 = 5_100_000;

/// A suggestion is made only when its composite score reaches this many millionths (0.65 in
/// average, summed over six metrics).
pub const SUGGEST_FLOOR_TOTAL: u64 = 3_900_000;

/// A row of the catalog's author table.
#[derive(Clone, Debug)]
pub struct CandidateRow {
    pub author_id: String,
    pub name: String,
    pub name_normalized: String,
}

/// A catalog author proposed for a name that matched none exactly.
#[derive(Clone, Debug)]
pub struct Suggestion {
    pub author_id: String,
    pub display_name: String,
    /// Sum of the six scores, in millionths.
    pub total: u64,
    pub scores: Scores,
}

impl Suggestion {
    /// The composite score (the mean of the six metrics), in millionths.
    pub open spec fn average(self) -> int {
        self.total as int / 6
    }

    /// The composite score, in millionths.
    pub fn average_millionths(&self) -> (r: u64)
        ensures
            r == self.average(),
    {
        self.total / 6
    }
}

/// A fraction in millionths, rounded down.
pub open spec fn frac_millionths(f: Frac) -> int {
    (f.0 * 1_000_000) as int / f.1 as int
}

/// The sum of the six scores of two names, each in millionths rounded down.
pub open spec fn pair_total(a: Seq<char>, b: Seq<char>) -> int {
    frac_millionths(seq_ratio_of(encode_utf8(a), encode_utf8(b))) + frac_millionths(
        token_ratio_of(a, b),
    ) + frac_millionths(prefix_ratio_of(a, b)) + frac_millionths(suffix_ratio_of(a, b))
        + frac_millionths(ngram_ratio_of(a, b)) + frac_millionths(
        length_ratio_of(encode_utf8(a).len(), encode_utf8(b).len()),
    )
}

/// Best total so far, and where it was found (variant, row).
pub type ScanState = (int, Option<(int, int)>);

/// The total score of row `j` of variant `i` against that variant.
pub open spec fn row_total(variants: Seq<Seq<char>>, rows: Seq<Seq<CandidateRow>>, i: int, j: int) -> int {
    pair_total(variants[i], rows[i][j].name_normalized@)
}

/// The scan over the first `j` rows of variant `i`: a row replaces the best when its total
/// is strictly higher.
pub open spec fn scan_rows(
    st: ScanState,
    variants: Seq<Seq<char>>,
    rows: Seq<Seq<CandidateRow>>,
    i: int,
    j: int,
) -> ScanState
    decreases j,
{
    if j <= 0 {
        st
    } else {
        let prev = scan_rows(st, variants, rows, i, j - 1);
        let t = row_total(variants, rows, i, j - 1);
        if t > prev.0 {
            (t, Some((i, j - 1)))
        } else {
            prev
        }
    }
}

/// The scan over the first `i` variants, which stops once the best total reaches the
/// early-exit mark.
pub open spec fn scan_variants(variants: Seq<Seq<char>>, rows: Seq<Seq<CandidateRow>>, i: int) -> ScanState
    decreases i,
{
    if i <= 0 {
        (0, None)
    } else {
        let prev = scan_variants(variants, rows, i - 1);
        if prev.0 >= EARLY_EXIT_TOTAL {
            prev
        } else {
            scan_rows(prev, variants, rows, i - 1, rows[i - 1].len() as int)
        }
    }
}

/// Where the suggestion comes from: the best row of the scan, if its total reaches the floor.
pub open spec fn suggestion_source(variants: Seq<Seq<char>>, rows: Seq<Seq<CandidateRow>>) -> Option<(int, int)> {
    let st = scan_variants(variants, rows, variants.len() as int);
    if st.1.is_some() && st.0 >= SUGGEST_FLOOR_TOTAL {
        st.1
    } else {
        None
    }
}

/// The rows of each neighborhood.
pub open spec fn rows_view(n: Seq<Vec<CandidateRow>>) -> Seq<Seq<CandidateRow>> {
    Seq::new(n.len(), |i: int| n[i]@)
}

/// The characters of each variant.
pub open spec fn variant_views(variants: Seq<String>) -> Seq<Seq<char>> {
    Seq::new(variants.len(), |i: int| variants[i]@)
}

proof fn lemma_scores_total(s: Scores, a: Seq<char>, b: Seq<char>)
    requires
        s.of(a, b),
    ensures
        s.total() == pair_total(a, b),
{
}

/// Picks the catalog row closest to one of the name's variants. `neighborhoods[i]` holds the
/// rows around where `variants[i]` sorts in the catalog's key order. The rows of each variant
/// are scored in turn; a row is kept when its composite score beats the best so far; after a
/// variant whose best reaches 0.85 the scan stops; the best is returned if it reaches 0.65.
pub fn suggest_author(variants: &Vec<String>, neighborhoods: &Vec<Vec<CandidateRow>>) -> (r: Option<
    Suggestion,
>)
    requires
        variants@.len() == neighborhoods@.len(),
    ensures
        ({
            let src = suggestion_source(variant_views(variants@), rows_view(neighborhoods@));
            &&& r.is_some() == src.is_some()
            &&& r.is_some() ==> {
                let (i, j) = src.unwrap();
                let row = neighborhoods@[i]@[j];
                let s = r.unwrap();
                &&& s.author_id@ == row.author_id@
                &&& s.display_name@ == row.name@
                &&& s.total == scan_variants(
                    variant_views(variants@),
                    rows_view(neighborhoods@),
                    variants@.len() as int,
                ).0
                &&& s.total <= 6_000_000
                &&& s.scores.wf()
                &&& s.scores.of(variants@[i]@, row.name_normalized@)
            }
        }),
{
    let ghost vs = variant_views(variants@);
    let ghost rs = rows_view(neighborhoods@);
    let mut best: Option<Suggestion> = None;
    let mut best_total: u64 = 0;
    let ghost mut best_at: Option<(int, int)> = None;
    let mut i: usize = 0;
    while i < variants.len()
        invariant
            i <= variants@.len(),
            variants@.len() == neighborhoods@.len(),
            vs == variant_views(variants@),
            rs == rows_view(neighborhoods@),
            scan_variants(vs, rs, i as int) == (best_total as int, best_at),
            best_total <= 6_000_000,
            best.is_some() == best_at.is_some(),
            best.is_some() ==> {
                let (bi, bj) = best_at.unwrap();
                let s = best.unwrap();
                &&& 0 <= bi < variants@.len()
                &&& 0 <= bj < neighborhoods@[bi]@.len()
                &&& s.author_id@ == neighborhoods@[bi]@[bj].author_id@
                &&& s.display_name@ == neighborhoods@[bi]@[bj].name@
                &&& s.total == best_total
                &&& s.scores.wf()
                &&& s.scores.of(variants@[bi]@, neighborhoods@[bi]@[bj].name_normalized@)
            },
        ensures
            scan_variants(vs, rs, variants@.len() as int) == (best_total as int, best_at),
        decreases variants@.len() - i,
    {
        if best_total >= EARLY_EXIT_TOTAL {
            proof {
                assert forall|k: int| i < k <= variants@.len() implies scan_variants(vs, rs, k)
                    == scan_variants(vs, rs, i as int) by {
                    lemma_scan_stays(vs, rs, i as int, k);
                }
                assert(scan_variants(vs, rs, variants@.len() as int) == scan_variants(
                    vs,
                    rs,
                    i as int,
                ));
            }
            break;
        }
        let variant = &variants[i];
        let rows = &neighborhoods[i];
        let mut j: usize = 0;
        while j < rows.len()
            invariant
                i < variants@.len(),
                variants@.len() == neighborhoods@.len(),
                vs == variant_views(variants@),
                rs == rows_view(neighborhoods@),
                rows == &neighborhoods@[i as int],
                variant == &variants@[i as int],
                j <= rows@.len(),
                scan_rows(scan_variants(vs, rs, i as int), vs, rs, i as int, j as int) == (
                    best_total as int,
                    best_at,
                ),
                best_total <= 6_000_000,
                best.is_some() == best_at.is_some(),
                best.is_some() ==> {
                    let (bi, bj) = best_at.unwrap();
                    let s = best.unwrap();
                    &&& 0 <= bi < variants@.len()
                    &&& 0 <= bj < neighborhoods@[bi]@.len()
                    &&& s.author_id@ == neighborhoods@[bi]@[bj].author_id@
                    &&& s.display_name@ == neighborhoods@[bi]@[bj].name@
                    &&& s.total == best_total
                    &&& s.scores.wf()
                    &&& s.scores.of(variants@[bi]@, neighborhoods@[bi]@[bj].name_normalized@)
                },
            decreases rows@.len() - j,
        {
            let row = &rows[j];
            let scores = score_pair(variant.as_str(), row.name_normalized.as_str());
            let total = scores.total_millionths();
            proof {
                lemma_scores_total(scores, variant@, row.name_normalized@);
                assert(vs[i as int] == variant@);
                assert(rs[i as int][j as int] == row);
            }
            if total > best_total {
                best_total = total;
                best = Some(
                    Suggestion {
                        author_id: row.author_id.clone(),
                        display_name: row.name.clone(),
                        total,
                        scores,
                    },
                );
                proof {
                    best_at = Some((i as int, j as int));
                }
            }
            j = j + 1;
        }
        proof {
            assert(rs[i as int].len() == rows@.len());
        }
        i = i + 1;
    }
    if best_total >= SUGGEST_FLOOR_TOTAL {
        best
    } else {
        None
    }
}

proof fn lemma_scan_stays(vs: Seq<Seq<char>>, rs: Seq<Seq<CandidateRow>>, i: int, k: int)
    requires
        0 <= i <= k,
        scan_variants(vs, rs, i).0 >= EARLY_EXIT_TOTAL,
    ensures
        scan_variants(vs, rs, k) == scan_variants(vs, rs, i),
    decreases k - i,
{
    if k > i {
        lemma_scan_stays(vs, rs, i, k - 1);
    }
}

/// The ASCII digit for `d` in `0..10`.
pub open spec fn digit_char(d: int) -> char {
    ((d + 48) as u8) as char
}

/// A score in millionths, rounded half up to hundredths and written `d.dd`.
pub open spec fn two_decimals(m: int) -> Seq<char> {
    let h = (m + 5000) / 10000;
    seq![digit_char(h / 100), '.', digit_char((h / 10) % 10), digit_char(h % 10)]
}

/// `|label:d.dd`.
pub open spec fn labelled(label: Seq<char>, m: int) -> Seq<char> {
    seq!['|'] + label + seq![':'] + two_decimals(m)
}

/// The `probable_author_multi` column:
/// `id|display|avg:X.XX|seq:X.XX|token:X.XX|prefix:X.XX|suffix:X.XX|ngram:X.XX|lenratio:X.XX`.
pub open spec fn probable_value(s: Suggestion) -> Seq<char> {
    s.author_id@ + seq!['|'] + s.display_name@ + labelled(seq!['a', 'v', 'g'], s.average())
        + labelled(seq!['s', 'e', 'q'], s.scores.seq.millionths()) + labelled(
        seq!['t', 'o', 'k', 'e', 'n'],
        s.scores.token.millionths(),
    ) + labelled(seq!['p', 'r', 'e', 'f', 'i', 'x'], s.scores.prefix.millionths()) + labelled(
        seq!['s', 'u', 'f', 'f', 'i', 'x'],
        s.scores.suffix.millionths(),
    ) + labelled(seq!['n', 'g', 'r', 'a', 'm'], s.scores.ngram.millionths()) + labelled(
        seq!['l', 'e', 'n', 'r', 'a', 't', 'i', 'o'],
        s.scores.lenratio.millionths(),
    )
}

fn digit(d: u64) -> (r: char)
    requires
        d < 10,
    ensures
        r == digit_char(d as int),
{
    ((d as u8) + 48) as char
}

fn push_labelled(out: &mut Vec<char>, label: Vec<char>, m: u64)
    requires
        m <= 1_000_000,
    ensures
        final(out)@ == old(out)@ + labelled(label@, m as int),
{
    let h = (m + 5000) / 10000;
    let mut tail: Vec<char> = vec!['|'];
    append_chars(&mut tail, &label);
    tail.push(':');
    tail.push(digit(h / 100));
    tail.push('.');
    tail.push(digit((h / 10) % 10));
    tail.push(digit(h % 10));
    assert(tail@ =~= labelled(label@, m as int));
    append_chars(out, &tail);
}

/// The `probable_author_multi` column for a suggestion.
pub fn format_probable_value(s: &Suggestion) -> (r: String)
    requires
        s.scores.wf(),
        s.total <= 6_000_000,
    ensures
        r@ == probable_value(*s),
{
    let mut out = chars_of(s.author_id.as_str());
    out.push('|');
    append_chars(&mut out, &chars_of(s.display_name.as_str()));
    push_labelled(&mut out, vec!['a', 'v', 'g'], s.average_millionths());
    push_labelled(&mut out, vec!['s', 'e', 'q'], s.scores.seq.to_millionths());
    push_labelled(&mut out, vec!['t', 'o', 'k', 'e', 'n'], s.scores.token.to_millionths());
    push_labelled(&mut out, vec!['p', 'r', 'e', 'f', 'i', 'x'], s.scores.prefix.to_millionths());
    push_labelled(&mut out, vec!['s', 'u', 'f', 'f', 'i', 'x'], s.scores.suffix.to_millionths());
    push_labelled(&mut out, vec!['n', 'g', 'r', 'a', 'm'], s.scores.ngram.to_millionths());
    push_labelled(
        &mut out,
        vec!['l', 'e', 'n', 'r', 'a', 't', 'i', 'o'],
        s.scores.lenratio.to_millionths(),
    );
    assert(out@ =~= probable_value(*s));
    string_of(&out)
}

/// The variant that names an entry: the first, in order, whose exact lookup hit.
pub fn first_exact_hit(hits: &Vec<Option<(String, String)>>) -> (r: Option<usize>)
    ensures
        r is Some <==> exists|k: int| 0 <= k < hits@.len() && (#[trigger] hits@[k]) is Some,
        r is Some ==> r.unwrap() < hits@.len() && hits@[r.unwrap() as int] is Some,
        r is Some ==> forall|j: int| 0 <= j < r.unwrap() ==> (#[trigger] hits@[j]) is None,
{
    let mut i: usize = 0;
    while i < hits.len()
        invariant
            i <= hits@.len(),
            forall|j: int| 0 <= j < i ==> (#[trigger] hits@[j]) is None,
        decreases hits@.len() - i,
    {
        if hits[i].is_some() {
            return Some(i);
        }
        i = i + 1;
    }
    None
}

} // verus!
