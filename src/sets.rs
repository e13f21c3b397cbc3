use vstd::prelude::*;

verus! {

/// The items of `s` without repeats, each at its first place.
pub open spec fn distinct(s: Seq<Seq<char>>) -> Seq<Seq<char>>
    decreases s.len(),
{
    if s.len() == 0 {
        s
    } else if distinct(s.drop_last()).contains(s.last()) {
        distinct(s.drop_last())
    } else {
        distinct(s.drop_last()).push(s.last())
    }
}

/// How many items of `x` occur in `y`.
pub open spec fn common(x: Seq<Seq<char>>, y: Seq<Seq<char>>) -> nat
    decreases x.len(),
{
    if x.len() == 0 {
        0
    } else {
        common(x.drop_last(), y) + if y.contains(x.last()) {
            1nat
        } else {
            0nat
        }
    }
}

/// `distinct` has no repeats, the same items, and is no longer than its input.
pub proof fn lemma_distinct(s: Seq<Seq<char>>)
    ensures
        distinct(s).no_duplicates(),
        distinct(s).to_set() == s.to_set(),
        distinct(s).len() <= s.len(),
        s.len() > 0 ==> distinct(s).len() > 0,
    decreases s.len(),
{
    if s.len() > 0 {
        let p = s.drop_last();
        lemma_distinct(p);
        let d = distinct(p);
        assert(s =~= p.push(s.last()));
        assert(s.to_set() =~= p.to_set().insert(s.last())) by {
            assert forall|x: Seq<char>| s.to_set().contains(x) <==> p.to_set().insert(
                s.last(),
            ).contains(x) by {
                if s.contains(x) {
                    let i = choose|i: int| 0 <= i < s.len() && s[i] == x;
                    if i < p.len() {
                        assert(p[i] == x);
                    }
                }
                if p.contains(x) {
                    let i = choose|i: int| 0 <= i < p.len() && p[i] == x;
                    assert(s[i] == x);
                }
            }
        }
        if d.contains(s.last()) {
            assert(d.to_set().contains(s.last()));
            assert(s.to_set() =~= d.to_set());
        } else {
            let e = d.push(s.last());
            assert forall|i: int, j: int| 0 <= i < e.len() && 0 <= j < e.len() && i != j implies e[i]
                != e[j] by {
                if i < d.len() && j < d.len() {
                    assert(e[i] == d[i] && e[j] == d[j]);
                } else if i < d.len() {
                    assert(e[i] == d[i]);
                } else {
                    assert(e[j] == d[j]);
                }
            }
            assert(e.to_set() =~= d.to_set().insert(s.last())) by {
                assert forall|x: Seq<char>| e.to_set().contains(x) <==> d.to_set().insert(
                    s.last(),
                ).contains(x) by {
                    if e.contains(x) {
                        let i = choose|i: int| 0 <= i < e.len() && e[i] == x;
                        if i < d.len() {
                            assert(d[i] == x);
                        }
                    }
                    if d.contains(x) {
                        let i = choose|i: int| 0 <= i < d.len() && d[i] == x;
                        assert(e[i] == x);
                    }
                    assert(e[d.len() as int] == s.last());
                }
            }
        }
    }
}

/// No more items are counted than `x` has.
pub proof fn lemma_common_bounded(x: Seq<Seq<char>>, y: Seq<Seq<char>>)
    ensures
        common(x, y) <= x.len(),
    decreases x.len(),
{
    if x.len() > 0 {
        lemma_common_bounded(x.drop_last(), y);
    }
}

/// When every item of `x` occurs in `y`, all of `x` is counted.
pub proof fn lemma_common_all(x: Seq<Seq<char>>, y: Seq<Seq<char>>)
    requires
        forall|i: int| 0 <= i < x.len() ==> y.contains(#[trigger] x[i]),
    ensures
        common(x, y) == x.len(),
    decreases x.len(),
{
    if x.len() > 0 {
        let p = x.drop_last();
        assert forall|i: int| 0 <= i < p.len() implies y.contains(#[trigger] p[i]) by {
            assert(p[i] == x[i]);
        }
        lemma_common_all(p, y);
        assert(y.contains(x[x.len() - 1]));
    }
}

/// On a sequence without repeats, `common` counts the intersection of the two item sets.
pub proof fn lemma_common_is_intersection(x: Seq<Seq<char>>, y: Seq<Seq<char>>)
    requires
        x.no_duplicates(),
    ensures
        common(x, y) == x.to_set().intersect(y.to_set()).len(),
    decreases x.len(),
{
    if x.len() == 0 {
        assert(x.to_set().intersect(y.to_set()) =~= Set::<Seq<char>>::empty());
    } else {
        let p = x.drop_last();
        let l = x.last();
        assert(p.no_duplicates()) by {
            assert forall|i: int, j: int| 0 <= i < p.len() && 0 <= j < p.len() && i != j implies p[i]
                != p[j] by {
                assert(p[i] == x[i] && p[j] == x[j]);
            }
        }
        lemma_common_is_intersection(p, y);
        assert(!p.contains(l)) by {
            if p.contains(l) {
                let i = choose|i: int| 0 <= i < p.len() && p[i] == l;
                assert(x[i] == x[x.len() - 1]);
            }
        }
        assert(x =~= p.push(l));
        let sp = p.to_set().intersect(y.to_set());
        assert(x.to_set() =~= p.to_set().insert(l)) by {
            assert forall|v: Seq<char>| x.to_set().contains(v) <==> p.to_set().insert(l).contains(v)
                by {
                if x.contains(v) {
                    let i = choose|i: int| 0 <= i < x.len() && x[i] == v;
                    if i < p.len() {
                        assert(p[i] == v);
                    }
                }
                if p.contains(v) {
                    let i = choose|i: int| 0 <= i < p.len() && p[i] == v;
                    assert(x[i] == v);
                }
            }
        }
        assert(!sp.contains(l));
        if y.contains(l) {
            assert(y.to_set().contains(l));
            assert(x.to_set().intersect(y.to_set()) =~= sp.insert(l));
        } else {
            assert(!y.to_set().contains(l));
            assert(x.to_set().intersect(y.to_set()) =~= sp);
        }
    }
}

/// Counting the common items of two sequences without repeats does not depend on the order
/// of the arguments.
pub proof fn lemma_common_symmetric(x: Seq<Seq<char>>, y: Seq<Seq<char>>)
    requires
        x.no_duplicates(),
        y.no_duplicates(),
    ensures
        common(x, y) == common(y, x),
{
    lemma_common_is_intersection(x, y);
    lemma_common_is_intersection(y, x);
    assert(x.to_set().intersect(y.to_set()) =~= y.to_set().intersect(x.to_set()));
}

/// Whether two texts hold the same characters.
pub fn same_chars(a: &Vec<char>, b: &Vec<char>) -> (r: bool)
    ensures
        r == (a@ == b@),
{
    if a.len() != b.len() {
        return false;
    }
    let mut i: usize = 0;
    while i < a.len()
        invariant
            i <= a@.len(),
            a@.len() == b@.len(),
            forall|k: int| 0 <= k < i ==> a@[k] == b@[k],
        decreases a@.len() - i,
    {
        if a[i] != b[i] {
            return false;
        }
        i = i + 1;
    }
    assert(a@ =~= b@);
    true
}

/// Whether `w` is one of the items of `list`.
pub fn contains_item(list: &Vec<Vec<char>>, w: &Vec<char>) -> (r: bool)
    ensures
        r == list.deep_view().contains(w@),
{
    let mut i: usize = 0;
    while i < list.len()
        invariant
            i <= list@.len(),
            forall|k: int| 0 <= k < i ==> list.deep_view()[k] != w@,
        decreases list@.len() - i,
    {
        assert(list@[i as int].deep_view() =~= list@[i as int]@);
        assert(list.deep_view()[i as int] == list@[i as int]@);
        if same_chars(&list[i], w) {
            return true;
        }
        i = i + 1;
    }
    false
}

/// The items of `s` without repeats, each at its first place.
pub fn distinct_items(s: &Vec<Vec<char>>) -> (r: Vec<Vec<char>>)
    ensures
        r.deep_view() == distinct(s.deep_view()),
{
    let mut r: Vec<Vec<char>> = Vec::new();
    let mut i: usize = 0;
    while i < s.len()
        invariant
            i <= s@.len(),
            r.deep_view() == distinct(s.deep_view().subrange(0, i as int)),
        decreases s@.len() - i,
    {
        let ghost sub = s.deep_view().subrange(0, i + 1);
        assert(sub.drop_last() =~= s.deep_view().subrange(0, i as int));
        assert(s@[i as int].deep_view() =~= s@[i as int]@);
        assert(sub.last() == s[i as int]@);
        if !contains_item(&r, &s[i]) {
            let ghost d = r.deep_view();
            let w = s[i].clone();
            assert(w.deep_view() =~= w@);
            r.push(w);
            assert(r.deep_view() =~= d.push(sub.last()));
        }
        i = i + 1;
    }
    assert(s.deep_view().subrange(0, s@.len() as int) =~= s.deep_view());
    r
}

/// How many items of `x` occur in `y`.
pub fn count_common(x: &Vec<Vec<char>>, y: &Vec<Vec<char>>) -> (r: usize)
    ensures
        r == common(x.deep_view(), y.deep_view()),
{
    let mut n: usize = 0;
    let mut i: usize = 0;
    while i < x.len()
        invariant
            i <= x@.len(),
            n == common(x.deep_view().subrange(0, i as int), y.deep_view()),
            n <= i,
        decreases x@.len() - i,
    {
        let ghost sub = x.deep_view().subrange(0, i + 1);
        assert(sub.drop_last() =~= x.deep_view().subrange(0, i as int));
        assert(x@[i as int].deep_view() =~= x@[i as int]@);
        assert(sub.last() == x@[i as int]@);
        if contains_item(y, &x[i]) {
            n = n + 1;
        }
        i = i + 1;
    }
    assert(x.deep_view().subrange(0, x@.len() as int) =~= x.deep_view());
    n
}

} // verus!
