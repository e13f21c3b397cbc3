use vstd::prelude::*;
use crate::sets::{
    common, count_common, distinct, distinct_items, lemma_common_all, lemma_common_bounded,
    lemma_common_symmetric, lemma_distinct,
};
use crate::text::{chars_of, split_words, words};
use vstd::utf8::{encode_scalar, encode_utf8};
use vstd::string::StringSliceAdditionalSpecFns;

verus! {

/// A score in `[0, 1]`, held exactly as `num / den`.
#[derive(Clone, Copy, Debug, PartialEq, Eq, Structural)]
pub struct Ratio {
    pub num: u128,
    pub den: u128,
}

/// An exact fraction `(numerator, denominator)`.
pub type Frac = (nat, nat);

/// A fraction in `[0, 1]`.
pub open spec fn frac_wf(f: Frac) -> bool {
    0 < f.1 && f.0 <= f.1
}

/// A fraction equal to one.
pub open spec fn frac_is_one(f: Frac) -> bool {
    f.0 == f.1
}

/// The fraction zero.
pub open spec fn zero_frac() -> Frac {
    (0, 1)
}

impl View for Ratio {
    type V = Frac;

    open spec fn view(&self) -> Frac {
        (self.num as nat, self.den as nat)
    }
}

impl Ratio {
    /// A score in `[0, 1]` whose denominator leaves room to scale to millionths.
    pub open spec fn wf(self) -> bool {
        0 < self.den && self.num <= self.den && self.den <= 0xffff_ffff_ffff_ffff_ffff_ffff
    }

    /// The score is one.
    pub open spec fn is_one(self) -> bool {
        self.num == self.den
    }

    /// The score in millionths, rounded down.
    pub open spec fn millionths(self) -> int {
        (self.num * 1_000_000) as int / self.den as int
    }

    /// The score in millionths, rounded down.
    pub fn to_millionths(&self) -> (r: u64)
        requires
            self.wf(),
        ensures
            r as int == self.millionths(),
            r <= 1_000_000,
    {
        proof {
            vstd::arithmetic::div_mod::lemma_div_is_ordered(
                (self.num * 1_000_000) as int,
                (self.den * 1_000_000) as int,
                self.den as int,
            );
            vstd::arithmetic::div_mod::lemma_div_multiples_vanish(1_000_000, self.den as int);
            assert(self.num * 1_000_000 <= self.den * 1_000_000) by (nonlinear_arith)
                requires
                    self.num <= self.den,
            ;
            assert(self.den as int * 1_000_000 <= 0xffff_ffff_ffff_ffff_ffff_ffff * 1_000_000)
                by (nonlinear_arith)
                requires
                    self.den <= 0xffff_ffff_ffff_ffff_ffff_ffff,
            ;
        }
        ((self.num * 1_000_000) / self.den) as u64
    }
}

/// Length of a longest common subsequence of two byte strings.
pub open spec fn lcs(a: Seq<u8>, b: Seq<u8>) -> nat
    decreases a.len() + b.len(),
{
    if a.len() == 0 || b.len() == 0 {
        0
    } else if a.last() == b.last() {
        lcs(a.drop_last(), b.drop_last()) + 1
    } else {
        let x = lcs(a.drop_last(), b);
        let y = lcs(a, b.drop_last());
        if x >= y {
            x
        } else {
            y
        }
    }
}

/// A common subsequence is no longer than either text.
pub proof fn lemma_lcs_bounded(a: Seq<u8>, b: Seq<u8>)
    ensures
        lcs(a, b) <= a.len(),
        lcs(a, b) <= b.len(),
    decreases a.len() + b.len(),
{
    if a.len() > 0 && b.len() > 0 {
        lemma_lcs_bounded(a.drop_last(), b.drop_last());
        lemma_lcs_bounded(a.drop_last(), b);
        lemma_lcs_bounded(a, b.drop_last());
    }
}

/// The longest common subsequence does not depend on the order of the texts.
pub proof fn lemma_lcs_symmetric(a: Seq<u8>, b: Seq<u8>)
    ensures
        lcs(a, b) == lcs(b, a),
    decreases a.len() + b.len(),
{
    if a.len() > 0 && b.len() > 0 {
        lemma_lcs_symmetric(a.drop_last(), b.drop_last());
        lemma_lcs_symmetric(a.drop_last(), b);
        lemma_lcs_symmetric(a, b.drop_last());
    }
}

/// A text is its own longest common subsequence.
pub proof fn lemma_lcs_self(a: Seq<u8>)
    ensures
        lcs(a, a) == a.len(),
    decreases a.len(),
{
    if a.len() > 0 {
        lemma_lcs_self(a.drop_last());
    }
}

/// Length of a longest common subsequence of `a` and `b`, by dynamic programming over rows.
pub fn lcs_length(a: &[u8], b: &[u8]) -> (r: usize)
    ensures
        r == lcs(a@, b@),
{
    let m = b.len();
    let mut prev: Vec<usize> = Vec::new();
    prev.push(0);
    let mut k: usize = 0;
    while k < m
        invariant
            m == b@.len(),
            k <= m,
            prev@.len() == k + 1,
            forall|j: int| 0 <= j <= k ==> prev@[j] == 0,
        decreases m - k,
    {
        prev.push(0);
        k = k + 1;
    }
    let mut curr: Vec<usize> = prev.clone();
    assert forall|j: int| 0 <= j <= m implies prev@[j] == lcs(a@.subrange(0, 0), b@.subrange(0, j))
        by {}
    let mut i: usize = 0;
    while i < a.len()
        invariant
            m == b@.len(),
            i <= a@.len(),
            prev@.len() == m + 1,
            curr@.len() == m + 1,
            curr@[0] == 0,
            forall|j: int|
                0 <= j <= m ==> #[trigger] prev@[j] == lcs(a@.subrange(0, i as int), b@.subrange(0, j)),
        decreases a@.len() - i,
    {
        let ghost ai = a@.subrange(0, i + 1);
        assert(ai.drop_last() =~= a@.subrange(0, i as int));
        assert(ai.last() == a@[i as int]);
        let mut j: usize = 0;
        while j < m
            invariant
                m == b@.len(),
                i < a@.len(),
                ai == a@.subrange(0, i + 1),
                ai.drop_last() == a@.subrange(0, i as int),
                ai.last() == a@[i as int],
                j <= m,
                prev@.len() == m + 1,
                curr@.len() == m + 1,
                curr@[0] == 0,
                forall|q: int|
                    0 <= q <= m ==> #[trigger] prev@[q] == lcs(a@.subrange(0, i as int), b@.subrange(0, q)),
                forall|q: int| 0 <= q <= j ==> #[trigger] curr@[q] == lcs(ai, b@.subrange(0, q)),
            decreases m - j,
        {
            let ghost bj = b@.subrange(0, j + 1);
            assert(bj.drop_last() =~= b@.subrange(0, j as int));
            assert(bj.last() == b@[j as int]);
            proof {
                lemma_lcs_bounded(a@.subrange(0, i as int), b@.subrange(0, j as int));
                assert(a@.subrange(0, i as int).len() == i);
            }
            let v = if a[i] == b[j] {
                prev[j] + 1
            } else {
                let x = prev[j + 1];
                let y = curr[j];
                if x >= y {
                    x
                } else {
                    y
                }
            };
            curr.set(j + 1, v);
            assert(curr@[j + 1] == lcs(ai, bj));
            j = j + 1;
        }
        let tmp = prev;
        prev = curr;
        curr = tmp;
        curr.set(0, 0);
        i = i + 1;
    }
    assert(a@.subrange(0, a@.len() as int) =~= a@);
    assert(b@.subrange(0, m as int) =~= b@);
    prev[m]
}

/// `seq`: twice the longest common subsequence of the UTF-8 bytes over the sum of the byte
/// lengths; one when both are empty.
pub open spec fn seq_ratio_of(a: Seq<u8>, b: Seq<u8>) -> Frac {
    if a.len() == 0 && b.len() == 0 {
        (1, 1)
    } else {
        (2 * lcs(a, b), a.len() + b.len())
    }
}

/// The `seq` score of two texts.
pub fn sequence_ratio(a: &str, b: &str) -> (r: Ratio)
    ensures
        r@ == seq_ratio_of(a.spec_bytes(), b.spec_bytes()),
        r.wf(),
{
    let ab = a.as_bytes();
    let bb = b.as_bytes();
    let l = lcs_length(ab, bb);
    proof {
        lemma_lcs_bounded(ab@, bb@);
    }
    if ab.len() == 0 && bb.len() == 0 {
        return Ratio { num: 1, den: 1 };
    }
    Ratio { num: 2 * (l as u128), den: ab.len() as u128 + bb.len() as u128 }
}

/// Number of equal leading characters.
pub open spec fn common_prefix_len(a: Seq<char>, b: Seq<char>) -> nat
    decreases a.len(),
{
    if a.len() == 0 || b.len() == 0 || a[0] != b[0] {
        0
    } else {
        1 + common_prefix_len(a.drop_first(), b.drop_first())
    }
}

/// The common prefix is no longer than either text and does not depend on their order.
pub proof fn lemma_prefix_bounded(a: Seq<char>, b: Seq<char>)
    ensures
        common_prefix_len(a, b) <= a.len(),
        common_prefix_len(a, b) <= b.len(),
        common_prefix_len(a, b) == common_prefix_len(b, a),
    decreases a.len(),
{
    if a.len() > 0 && b.len() > 0 && a[0] == b[0] {
        lemma_prefix_bounded(a.drop_first(), b.drop_first());
    }
}

/// A text shares all of itself as prefix with itself.
pub proof fn lemma_prefix_self(a: Seq<char>)
    ensures
        common_prefix_len(a, a) == a.len(),
    decreases a.len(),
{
    if a.len() > 0 {
        lemma_prefix_self(a.drop_first());
    }
}

/// The larger of two naturals.
pub open spec fn max_nat(x: nat, y: nat) -> nat {
    if x >= y {
        x
    } else {
        y
    }
}

/// `prefix`: equal leading characters over the longer length; zero when both are empty.
pub open spec fn prefix_ratio_of(a: Seq<char>, b: Seq<char>) -> Frac {
    if max_nat(a.len(), b.len()) == 0 {
        zero_frac()
    } else {
        (common_prefix_len(a, b), max_nat(a.len(), b.len()))
    }
}

fn prefix_of_chars(a: &Vec<char>, b: &Vec<char>) -> (r: Ratio)
    ensures
        r@ == prefix_ratio_of(a@, b@),
        r.wf(),
{
    let max_len = if a.len() >= b.len() {
        a.len()
    } else {
        b.len()
    };
    if max_len == 0 {
        return Ratio { num: 0, den: 1 };
    }
    let mut count: usize = 0;
    assert(a@.subrange(0, a@.len() as int) =~= a@);
    assert(b@.subrange(0, b@.len() as int) =~= b@);
    while count < a.len() && count < b.len() && a[count] == b[count]
        invariant
            count <= a@.len(),
            count <= b@.len(),
            common_prefix_len(a@, b@) == count + common_prefix_len(
                a@.subrange(count as int, a@.len() as int),
                b@.subrange(count as int, b@.len() as int),
            ),
        decreases a@.len() - count,
    {
        assert(a@.subrange(count as int, a@.len() as int).drop_first() =~= a@.subrange(
            count + 1,
            a@.len() as int,
        ));
        assert(b@.subrange(count as int, b@.len() as int).drop_first() =~= b@.subrange(
            count + 1,
            b@.len() as int,
        ));
        count = count + 1;
    }
    proof {
        lemma_prefix_bounded(a@, b@);
    }
    Ratio { num: count as u128, den: max_len as u128 }
}

/// The `prefix` score of two texts.
pub fn prefix_score(a: &str, b: &str) -> (r: Ratio)
    ensures
        r@ == prefix_ratio_of(a@, b@),
        r.wf(),
{
    prefix_of_chars(&chars_of(a), &chars_of(b))
}

/// The characters of `s` in reverse order.
pub open spec fn reversed(s: Seq<char>) -> Seq<char> {
    Seq::new(s.len(), |i: int| s[s.len() - 1 - i])
}

fn reverse_chars(v: &Vec<char>) -> (r: Vec<char>)
    ensures
        r@ == reversed(v@),
{
    let mut r: Vec<char> = Vec::new();
    let n = v.len();
    let mut i: usize = 0;
    while i < n
        invariant
            n == v@.len(),
            i <= n,
            r@ =~= Seq::new(i as nat, |k: int| v@[n - 1 - k]),
        decreases n - i,
    {
        r.push(v[n - 1 - i]);
        i = i + 1;
    }
    r
}

/// `suffix`: the prefix score of the reversed texts.
pub open spec fn suffix_ratio_of(a: Seq<char>, b: Seq<char>) -> Frac {
    prefix_ratio_of(reversed(a), reversed(b))
}

/// The `suffix` score of two texts.
pub fn suffix_score(a: &str, b: &str) -> (r: Ratio)
    ensures
        r@ == suffix_ratio_of(a@, b@),
        r.wf(),
{
    prefix_of_chars(&reverse_chars(&chars_of(a)), &reverse_chars(&chars_of(b)))
}

/// `lenratio`: the shorter byte length over the longer one (one minus the relative
/// difference); zero when both are empty.
pub open spec fn length_ratio_of(la: nat, lb: nat) -> Frac {
    if max_nat(la, lb) == 0 {
        zero_frac()
    } else if la <= lb {
        (la, lb)
    } else {
        (lb, la)
    }
}

/// The `lenratio` score of two texts.
pub fn length_ratio_score(a: &str, b: &str) -> (r: Ratio)
    ensures
        r@ == length_ratio_of(a.spec_bytes().len(), b.spec_bytes().len()),
        r.wf(),
{
    let la = a.as_bytes().len();
    let lb = b.as_bytes().len();
    if la == 0 && lb == 0 {
        Ratio { num: 0, den: 1 }
    } else if la <= lb {
        Ratio { num: la as u128, den: lb as u128 }
    } else {
        Ratio { num: lb as u128, den: la as u128 }
    }
}

/// `token`: Jaccard index of the two sets of whitespace-separated words; zero when either
/// has no word.
pub open spec fn token_ratio_of(a: Seq<char>, b: Seq<char>) -> Frac {
    let x = distinct(words(a));
    let y = distinct(words(b));
    if x.len() == 0 || y.len() == 0 {
        zero_frac()
    } else {
        (common(x, y), (x.len() + y.len() - common(x, y)) as nat)
    }
}

/// Jaccard index of two item lists without repeats.
fn jaccard(x: &Vec<Vec<char>>, y: &Vec<Vec<char>>) -> (r: Ratio)
    requires
        x.deep_view().no_duplicates(),
        y.deep_view().no_duplicates(),
    ensures
        x@.len() == 0 || y@.len() == 0 ==> r@ == zero_frac(),
        x@.len() > 0 && y@.len() > 0 ==> r@ == (
            common(x.deep_view(), y.deep_view()),
            (x@.len() + y@.len() - common(x.deep_view(), y.deep_view())) as nat,
        ),
        r.wf(),
{
    if x.len() == 0 || y.len() == 0 {
        return Ratio { num: 0, den: 1 };
    }
    let c = count_common(x, y);
    proof {
        lemma_common_bounded(x.deep_view(), y.deep_view());
        lemma_common_symmetric(x.deep_view(), y.deep_view());
        lemma_common_bounded(y.deep_view(), x.deep_view());
    }
    Ratio { num: c as u128, den: x.len() as u128 + y.len() as u128 - c as u128 }
}

/// The `token` score of two texts.
pub fn token_overlap_score(a: &str, b: &str) -> (r: Ratio)
    ensures
        r@ == token_ratio_of(a@, b@),
        r.wf(),
{
    let x = distinct_items(&split_words(&chars_of(a)));
    let y = distinct_items(&split_words(&chars_of(b)));
    proof {
        lemma_distinct(words(a@));
        lemma_distinct(words(b@));
    }
    jaccard(&x, &y)
}

/// The character bigrams of `s`; a text of one character is its own single gram.
pub open spec fn grams(s: Seq<char>) -> Seq<Seq<char>> {
    if s.len() < 2 {
        Seq::new(s.len(), |i: int| seq![s[i]])
    } else {
        Seq::new((s.len() - 1) as nat, |i: int| seq![s[i], s[i + 1]])
    }
}

fn grams_of(v: &Vec<char>) -> (r: Vec<Vec<char>>)
    ensures
        r.deep_view() == grams(v@),
{
    let mut r: Vec<Vec<char>> = Vec::new();
    if v.len() < 2 {
        if v.len() == 1 {
            let g = vec![v[0]];
            assert(g.deep_view() =~= seq![v@[0]]);
            r.push(g);
        }
        assert(r.deep_view() =~= grams(v@));
        return r;
    }
    let mut i: usize = 0;
    while i < v.len() - 1
        invariant
            v@.len() >= 2,
            i + 1 <= v@.len(),
            r.deep_view() =~= Seq::new(i as nat, |k: int| seq![v@[k], v@[k + 1]]),
        decreases v@.len() - i,
    {
        let g = vec![v[i], v[i + 1]];
        assert(g.deep_view() =~= seq![v@[i as int], v@[i + 1]]);
        let ghost d = r.deep_view();
        r.push(g);
        assert(r.deep_view() =~= d.push(seq![v@[i as int], v@[i + 1]]));
        i = i + 1;
    }
    r
}

/// `ngram`: Sørensen–Dice coefficient of the two sets of bigrams; zero when either is empty.
pub open spec fn ngram_ratio_of(a: Seq<char>, b: Seq<char>) -> Frac {
    let x = distinct(grams(a));
    let y = distinct(grams(b));
    if x.len() == 0 || y.len() == 0 {
        zero_frac()
    } else {
        (2 * common(x, y), x.len() + y.len())
    }
}

/// The `ngram` score of two texts.
pub fn bigram_dice_score(a: &str, b: &str) -> (r: Ratio)
    ensures
        r@ == ngram_ratio_of(a@, b@),
        r.wf(),
{
    let x = distinct_items(&grams_of(&chars_of(a)));
    let y = distinct_items(&grams_of(&chars_of(b)));
    if x.len() == 0 || y.len() == 0 {
        return Ratio { num: 0, den: 1 };
    }
    let c = count_common(&x, &y);
    proof {
        lemma_common_bounded(x.deep_view(), y.deep_view());
        lemma_distinct(grams(a@));
        lemma_distinct(grams(b@));
        lemma_common_symmetric(x.deep_view(), y.deep_view());
        lemma_common_bounded(y.deep_view(), x.deep_view());
    }
    Ratio { num: 2 * (c as u128), den: x.len() as u128 + y.len() as u128 }
}

/// The six scores of one pair of normalized names.
#[derive(Clone, Copy, Debug)]
pub struct Scores {
    pub seq: Ratio,
    pub token: Ratio,
    pub prefix: Ratio,
    pub suffix: Ratio,
    pub ngram: Ratio,
    pub lenratio: Ratio,
}

impl Scores {
    /// All six scores are well formed.
    pub open spec fn wf(self) -> bool {
        self.seq.wf() && self.token.wf() && self.prefix.wf() && self.suffix.wf() && self.ngram.wf()
            && self.lenratio.wf()
    }

    /// The six scores, as `a` and `b` give them.
    pub open spec fn of(self, a: Seq<char>, b: Seq<char>) -> bool {
        &&& self.seq@ == seq_ratio_of(encode_utf8(a), encode_utf8(b))
        &&& self.token@ == token_ratio_of(a, b)
        &&& self.prefix@ == prefix_ratio_of(a, b)
        &&& self.suffix@ == suffix_ratio_of(a, b)
        &&& self.ngram@ == ngram_ratio_of(a, b)
        &&& self.lenratio@ == length_ratio_of(encode_utf8(a).len(), encode_utf8(b).len())
    }

    /// Sum of the six scores, in millionths (each rounded down).
    pub open spec fn total(self) -> int {
        self.seq.millionths() + self.token.millionths() + self.prefix.millionths()
            + self.suffix.millionths() + self.ngram.millionths() + self.lenratio.millionths()
    }

    /// Sum of the six scores, in millionths (each rounded down).
    pub fn total_millionths(&self) -> (r: u64)
        requires
            self.wf(),
        ensures
            r == self.total(),
            r <= 6_000_000,
    {
        self.seq.to_millionths() + self.token.to_millionths() + self.prefix.to_millionths()
            + self.suffix.to_millionths() + self.ngram.to_millionths()
            + self.lenratio.to_millionths()
    }
}

/// The six similarity scores of two normalized names.
pub fn score_pair(a: &str, b: &str) -> (r: Scores)
    ensures
        r.wf(),
        r.of(a@, b@),
{
    Scores {
        seq: sequence_ratio(a, b),
        token: token_overlap_score(a, b),
        prefix: prefix_score(a, b),
        suffix: suffix_score(a, b),
        ngram: bigram_dice_score(a, b),
        lenratio: length_ratio_score(a, b),
    }
}

proof fn lemma_utf8_nonempty(a: Seq<char>)
    requires
        a.len() > 0,
    ensures
        encode_utf8(a).len() > 0,
{
    assert(encode_utf8(a) == encode_scalar(a[0] as u32) + encode_utf8(a.drop_first()));
    assert(encode_scalar(a[0] as u32).len() > 0);
}

proof fn lemma_grams_nonempty(a: Seq<char>)
    requires
        a.len() > 0,
    ensures
        grams(a).len() > 0,
{
}

/// Every score lies in `[0, 1]`; `seq`, `token`, `ngram` and `lenratio` do not depend on the
/// order of the arguments; a non-empty name scores one against itself on every metric, and
/// on `token` as soon as it holds a word.
pub proof fn lemma_metric_laws(a: Seq<char>, b: Seq<char>)
    ensures
        frac_wf(seq_ratio_of(encode_utf8(a), encode_utf8(b))),
        frac_wf(token_ratio_of(a, b)),
        frac_wf(prefix_ratio_of(a, b)),
        frac_wf(suffix_ratio_of(a, b)),
        frac_wf(ngram_ratio_of(a, b)),
        frac_wf(length_ratio_of(encode_utf8(a).len(), encode_utf8(b).len())),
        seq_ratio_of(encode_utf8(a), encode_utf8(b)) == seq_ratio_of(encode_utf8(b), encode_utf8(a)),
        token_ratio_of(a, b) == token_ratio_of(b, a),
        ngram_ratio_of(a, b) == ngram_ratio_of(b, a),
        length_ratio_of(encode_utf8(a).len(), encode_utf8(b).len()) == length_ratio_of(
            encode_utf8(b).len(),
            encode_utf8(a).len(),
        ),
        a.len() > 0 ==> frac_is_one(seq_ratio_of(encode_utf8(a), encode_utf8(a))),
        a.len() > 0 ==> frac_is_one(prefix_ratio_of(a, a)),
        a.len() > 0 ==> frac_is_one(suffix_ratio_of(a, a)),
        a.len() > 0 ==> frac_is_one(ngram_ratio_of(a, a)),
        a.len() > 0 ==> frac_is_one(length_ratio_of(encode_utf8(a).len(), encode_utf8(a).len())),
        words(a).len() > 0 ==> frac_is_one(token_ratio_of(a, a)),
{
    let ea = encode_utf8(a);
    let eb = encode_utf8(b);
    lemma_lcs_bounded(ea, eb);
    lemma_lcs_symmetric(ea, eb);
    lemma_lcs_self(ea);
    lemma_prefix_bounded(a, b);
    lemma_prefix_bounded(reversed(a), reversed(b));
    lemma_prefix_self(a);
    lemma_prefix_self(reversed(a));
    let wa = distinct(words(a));
    let wb = distinct(words(b));
    lemma_distinct(words(a));
    lemma_distinct(words(b));
    lemma_common_bounded(wa, wb);
    lemma_common_bounded(wb, wa);
    lemma_common_symmetric(wa, wb);
    let ga = distinct(grams(a));
    let gb = distinct(grams(b));
    lemma_distinct(grams(a));
    lemma_distinct(grams(b));
    lemma_common_bounded(ga, gb);
    lemma_common_bounded(gb, ga);
    lemma_common_symmetric(ga, gb);
    assert forall|i: int| 0 <= i < wa.len() implies wa.contains(#[trigger] wa[i]) by {}
    lemma_common_all(wa, wa);
    assert forall|i: int| 0 <= i < ga.len() implies ga.contains(#[trigger] ga[i]) by {}
    lemma_common_all(ga, ga);
    if a.len() > 0 {
        lemma_utf8_nonempty(a);
        lemma_grams_nonempty(a);
    }
}

} // verus!
