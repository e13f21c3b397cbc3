use vstd::prelude::*;
use vstd::utf8::encode_utf8;
use crate::normalize::{compare_key, normalize_for_compare, trim_both, trim_chars, TrimSet};
use crate::resolve::{frac_millionths, Suggestion};
use crate::score::{seq_ratio_of, sequence_ratio};
use crate::text::{chars_of, join_with_spaces, join_words, split_words, string_of, words};

verus! {

/// An author directory, with what the catalog said of its name.
#[derive(Clone, Debug)]
pub struct AuthorEntry {
    pub name: String,
    pub author_id: Option<String>,
    pub author_name_db: Option<String>,
    pub probable: Option<Suggestion>,
}

/// The characters of an optional string.
pub open spec fn opt_chars(o: Option<String>) -> Option<Seq<char>> {
    match o {
        Some(s) => Some(s@),
        None => None,
    }
}

impl AuthorEntry {
    /// A suggestion, if any, holds well-formed scores.
    pub open spec fn wf(self) -> bool {
        self.probable is Some ==> self.probable.unwrap().scores.wf()
    }
}

/// The author id a directory is grouped under: the exact match, else the suggestion when its
/// `seq` score reaches `threshold` (in millionths).
pub open spec fn effective_id_of(e: AuthorEntry, threshold: u64) -> Option<Seq<char>> {
    match e.author_id {
        Some(id) => Some(id@),
        None => match e.probable {
            Some(p) => if p.scores.seq.millionths() >= threshold {
                Some(p.author_id@)
            } else {
                None
            },
            None => None,
        },
    }
}

/// The author id a directory is grouped under.
pub fn effective_id(e: &AuthorEntry, threshold: u64) -> (r: Option<String>)
    requires
        e.wf(),
    ensures
        opt_chars(r) == effective_id_of(*e, threshold),
{
    match &e.author_id {
        Some(id) => Some(id.clone()),
        None => match &e.probable {
            Some(p) => {
                if p.scores.seq.to_millionths() >= threshold {
                    Some(p.author_id.clone())
                } else {
                    None
                }
            },
            None => None,
        },
    }
}

/// Directories that share an author id, by their positions in the entry list.
#[derive(Clone, Debug)]
pub struct Group {
    pub author_id: String,
    pub members: Vec<usize>,
}

/// Every entry is well formed.
pub open spec fn all_wf(entries: Seq<AuthorEntry>) -> bool {
    forall|k: int| 0 <= k < entries.len() ==> (#[trigger] entries[k]).wf()
}

/// What a grouping must be: no group is empty, each member has the group's id, members are in increasing
/// order, ids differ between groups, and every entry with an id is in the group of that id.
pub open spec fn is_grouping(groups: Seq<Group>, entries: Seq<AuthorEntry>, threshold: u64, upto: int) -> bool {
    &&& forall|g: int| 0 <= g < groups.len() ==> (#[trigger] groups[g]).members@.len() > 0
    &&& forall|g: int, m: int|
        0 <= g < groups.len() && 0 <= m < groups[g].members@.len() ==> {
            let k = #[trigger] groups[g].members@[m];
            &&& k < upto
            &&& effective_id_of(entries[k as int], threshold) == Some(groups[g].author_id@)
        }
    &&& forall|g: int, m1: int, m2: int|
        0 <= g < groups.len() && 0 <= m1 < m2 < groups[g].members@.len() ==> #[trigger] groups[g].members@[m1]
            < #[trigger] groups[g].members@[m2]
    &&& forall|g1: int, g2: int|
        0 <= g1 < g2 < groups.len() ==> #[trigger] groups[g1].author_id@ != #[trigger] groups[g2].author_id@
    &&& forall|k: int|
        0 <= k < upto && (#[trigger] effective_id_of(entries[k], threshold)) is Some ==> exists|g: int|
            0 <= g < groups.len() && groups[g].author_id@ == effective_id_of(entries[k], threshold).unwrap()
                && #[trigger] groups[g].members@.contains(k as usize)
}

/// Groups the entries by effective author id, groups in order of first appearance.
pub fn group_by_author_id(entries: &Vec<AuthorEntry>, threshold: u64) -> (r: Vec<Group>)
    requires
        all_wf(entries@),
    ensures
        is_grouping(r@, entries@, threshold, entries@.len() as int),
{
    let mut groups: Vec<Group> = Vec::new();
    let mut k: usize = 0;
    while k < entries.len()
        invariant
            k <= entries@.len(),
            all_wf(entries@),
            is_grouping(groups@, entries@, threshold, k as int),
        decreases entries@.len() - k,
    {
        assert(entries@[k as int].wf());
        let eff = effective_id(&entries[k], threshold);
        match eff {
            None => {},
            Some(id) => {
                let mut g: usize = 0;
                let mut found = false;
                while g < groups.len()
                    invariant_except_break
                        !found,
                    invariant
                        g <= groups@.len(),
                        forall|h: int| 0 <= h < g ==> (#[trigger] groups@[h]).author_id@ != id@,
                    ensures
                        found ==> g < groups@.len() && groups@[g as int].author_id@ == id@,
                        !found ==> forall|h: int|
                            0 <= h < groups@.len() ==> (#[trigger] groups@[h]).author_id@ != id@,
                    decreases groups@.len() - g,
                {
                    if groups[g].author_id == id {
                        found = true;
                        break;
                    }
                    g = g + 1;
                }
                let ghost old_groups = groups@;
                assert(effective_id_of(entries@[k as int], threshold) == Some(id@));
                if found {
                    assert(groups@[g as int].author_id@ == id@);
                    let mut grp = groups.remove(g);
                    let ghost om = grp.members@;
                    grp.members.push(k);
                    groups.insert(g, grp);
                    assert(groups@.len() == old_groups.len());
                    assert forall|h: int| 0 <= h < groups@.len() && h != g implies #[trigger] groups@[h]
                        == old_groups[h] by {}
                    assert(groups@[g as int].members@ == om.push(k));
                    assert forall|j: int|
                        0 <= j < k + 1 && (#[trigger] effective_id_of(entries@[j], threshold)) is Some implies exists|
                        h: int,
                    |
                        0 <= h < groups@.len() && groups@[h].author_id@ == effective_id_of(
                            entries@[j],
                            threshold,
                        ).unwrap() && #[trigger] groups@[h].members@.contains(j as usize) by {
                        if j == k {
                            assert(groups@[g as int].members@[om.len() as int] == k);
                            assert(groups@[g as int].members@.contains(k));
                            assert(0 <= g < groups@.len() && groups@[g as int].author_id@
                                == effective_id_of(entries@[j], threshold).unwrap()
                                && groups@[g as int].members@.contains(j as usize));
                        } else {
                            let h0 = choose|h: int|
                                0 <= h < old_groups.len() && old_groups[h].author_id@
                                    == effective_id_of(entries@[j], threshold).unwrap()
                                    && #[trigger] old_groups[h].members@.contains(j as usize);
                            if h0 == g {
                                let m0 = choose|m: int|
                                    0 <= m < om.len() && om[m] == j as usize;
                                assert(groups@[g as int].members@[m0] == j as usize);
                                assert(groups@[g as int].members@.contains(j as usize));
                                assert(0 <= g < groups@.len() && groups@[g as int].author_id@
                                    == effective_id_of(entries@[j], threshold).unwrap()
                                    && groups@[g as int].members@.contains(j as usize));
                            } else {
                                assert(groups@[h0].members@.contains(j as usize));
                                assert(0 <= h0 < groups@.len() && groups@[h0].author_id@
                                    == effective_id_of(entries@[j], threshold).unwrap()
                                    && groups@[h0].members@.contains(j as usize));
                            }
                        }
                    }
                } else {
                    let ghost idv = id@;
                    assert(effective_id_of(entries@[k as int], threshold) == Some(idv));
                    let grp = Group { author_id: id, members: vec![k] };
                    groups.push(grp);
                    assert forall|h: int| 0 <= h < old_groups.len() implies #[trigger] groups@[h]
                        == old_groups[h] by {}
                    assert forall|j: int|
                        0 <= j < k + 1 && (#[trigger] effective_id_of(entries@[j], threshold)) is Some implies exists|
                        h: int,
                    |
                        0 <= h < groups@.len() && groups@[h].author_id@ == effective_id_of(
                            entries@[j],
                            threshold,
                        ).unwrap() && #[trigger] groups@[h].members@.contains(j as usize) by {
                        if j == k {
                            assert(groups@[old_groups.len() as int].members@[0] == k);
                            assert(groups@[old_groups.len() as int].members@.contains(k));
                            assert(groups@[old_groups.len() as int].author_id@ == idv);
                            let hh = old_groups.len() as int;
                            assert(0 <= hh < groups@.len() && groups@[hh].author_id@
                                == effective_id_of(entries@[j], threshold).unwrap()
                                && groups@[hh].members@.contains(j as usize));
                        } else {
                            let h0 = choose|h: int|
                                0 <= h < old_groups.len() && old_groups[h].author_id@
                                    == effective_id_of(entries@[j], threshold).unwrap()
                                    && #[trigger] old_groups[h].members@.contains(j as usize);
                            assert(groups@[h0] == old_groups[h0]);
                            assert(0 <= h0 < groups@.len() && groups@[h0].author_id@
                                == effective_id_of(entries@[j], threshold).unwrap()
                                && groups@[h0].members@.contains(j as usize));
                        }
                    }
                }
            },
        }
        k = k + 1;
    }
    groups
}

/// The words of a name with the last one moved to the front ("Last First" from
/// "First Last" on two words).
pub open spec fn rotate_right(ws: Seq<Seq<char>>) -> Seq<Seq<char>> {
    seq![ws.last()] + ws.drop_last()
}

/// The `seq` score of two texts, in millionths.
pub open spec fn seq_millionths(a: Seq<char>, b: Seq<char>) -> int {
    frac_millionths(seq_ratio_of(encode_utf8(a), encode_utf8(b)))
}

/// How well a directory name lines up with the catalog's name for the author, in millionths:
/// the better `seq` score of the two comparison keys, the catalog's also taken with its words
/// rotated right by one; zero without a catalog name or when a key is empty.
pub open spec fn alignment_of(dir: Seq<char>, db: Option<Seq<char>>) -> int {
    match db {
        None => 0,
        Some(d) => {
            let dn = compare_key(dir);
            let bn = compare_key(d);
            if trim_both(d, TrimSet::Whitespace).len() == 0 || dn.len() == 0 || bn.len() == 0 {
                0
            } else if words(bn).len() >= 2 {
                let s1 = seq_millionths(dn, bn);
                let s2 = seq_millionths(dn, join_words(rotate_right(words(bn))));
                if s1 >= s2 {
                    s1
                } else {
                    s2
                }
            } else {
                seq_millionths(dn, bn)
            }
        },
    }
}

/// How well a directory name lines up with the catalog name, in millionths.
pub fn alignment_score(dir_name: &str, db_name: &Option<String>) -> (r: u64)
    ensures
        r == alignment_of(dir_name@, opt_chars(*db_name)),
        r <= 1_000_000,
{
    let db = match db_name {
        None => {
            return 0;
        },
        Some(d) => d,
    };
    if trim_chars(&chars_of(db.as_str()), TrimSet::Whitespace).len() == 0 {
        return 0;
    }
    let dn = normalize_for_compare(dir_name);
    let bn = normalize_for_compare(db.as_str());
    if dn.len() == 0 || bn.len() == 0 {
        return 0;
    }
    let dns = string_of(&dn);
    let bns = string_of(&bn);
    let s1 = sequence_ratio(dns.as_str(), bns.as_str()).to_millionths();
    let parts = split_words(&bn);
    if parts.len() >= 2 {
        let mut rotated: Vec<Vec<char>> = Vec::new();
        let last = parts[parts.len() - 1].clone();
        assert(last.deep_view() =~= last@);
        rotated.push(last);
        let mut i: usize = 0;
        while i < parts.len() - 1
            invariant
                parts@.len() >= 2,
                i <= parts@.len() - 1,
                rotated.deep_view() =~= seq![parts.deep_view().last()] + parts.deep_view().subrange(
                    0,
                    i as int,
                ),
            decreases parts@.len() - 1 - i,
        {
            let w = parts[i].clone();
            assert(w.deep_view() =~= w@);
            assert(parts@[i as int].deep_view() =~= parts@[i as int]@);
            let ghost d = rotated.deep_view();
            rotated.push(w);
            assert(rotated.deep_view() =~= d.push(parts.deep_view()[i as int]));
            i = i + 1;
        }
        assert(parts.deep_view().subrange(0, parts@.len() - 1) =~= parts.deep_view().drop_last());
        let rs = string_of(&join_with_spaces(&rotated));
        let s2 = sequence_ratio(dns.as_str(), rs.as_str()).to_millionths();
        if s1 >= s2 {
            s1
        } else {
            s2
        }
    } else {
        s1
    }
}

/// The first member's exact-match name, if any.
pub open spec fn first_db_name(members: Seq<AuthorEntry>) -> Option<Seq<char>>
    decreases members.len(),
{
    if members.len() == 0 {
        None
    } else if members[0].author_name_db is Some {
        Some(members[0].author_name_db.unwrap()@)
    } else {
        first_db_name(members.drop_first())
    }
}

/// The first member's suggested display name, if any.
pub open spec fn first_probable_display(members: Seq<AuthorEntry>) -> Option<Seq<char>>
    decreases members.len(),
{
    if members.len() == 0 {
        None
    } else if members[0].probable is Some {
        Some(members[0].probable.unwrap().display_name@)
    } else {
        first_probable_display(members.drop_first())
    }
}

/// The first member's suggested display name, if any.
pub fn entry_best_probable_display(members: &Vec<AuthorEntry>) -> (r: Option<String>)
    ensures
        opt_chars(r) == first_probable_display(members@),
{
    let mut i: usize = 0;
    assert(members@.subrange(0, members@.len() as int) =~= members@);
    while i < members.len()
        invariant
            i <= members@.len(),
            first_probable_display(members@) == first_probable_display(
                members@.subrange(i as int, members@.len() as int),
            ),
        decreases members@.len() - i,
    {
        assert(members@.subrange(i as int, members@.len() as int).drop_first() =~= members@.subrange(
            i + 1,
            members@.len() as int,
        ));
        if let Some(p) = &members[i].probable {
            return Some(p.display_name.clone());
        }
        i = i + 1;
    }
    None
}

/// The catalog name a group is aligned with: the first exact-match name of its members, else
/// the first suggested display name.
pub fn group_catalog_name(members: &Vec<AuthorEntry>) -> (r: Option<String>)
    ensures
        opt_chars(r) == (if first_db_name(members@) is Some {
            first_db_name(members@)
        } else {
            first_probable_display(members@)
        }),
{
    let mut i: usize = 0;
    assert(members@.subrange(0, members@.len() as int) =~= members@);
    while i < members.len()
        invariant
            i <= members@.len(),
            first_db_name(members@) == first_db_name(members@.subrange(i as int, members@.len() as int)),
        decreases members@.len() - i,
    {
        assert(members@.subrange(i as int, members@.len() as int).drop_first() =~= members@.subrange(
            i + 1,
            members@.len() as int,
        ));
        if let Some(n) = &members[i].author_name_db {
            return Some(n.clone());
        }
        i = i + 1;
    }
    entry_best_probable_display(members)
}

/// Code-point lexicographic order (the order of `String`'s `<`).
pub open spec fn text_less(a: Seq<char>, b: Seq<char>) -> bool
    decreases a.len(),
{
    if a.len() == 0 {
        b.len() > 0
    } else if b.len() == 0 {
        false
    } else if a[0] != b[0] {
        a[0] < b[0]
    } else {
        text_less(a.drop_first(), b.drop_first())
    }
}

/// The text order is transitive.
pub proof fn lemma_text_less_transitive(a: Seq<char>, b: Seq<char>, c: Seq<char>)
    requires
        text_less(a, b),
        text_less(b, c),
    ensures
        text_less(a, c),
    decreases a.len(),
{
    if a.len() > 0 && b.len() > 0 && c.len() > 0 && a[0] == b[0] && b[0] == c[0] {
        lemma_text_less_transitive(a.drop_first(), b.drop_first(), c.drop_first());
    }
}

/// No text is before itself.
pub proof fn lemma_text_less_irreflexive(a: Seq<char>)
    ensures
        !text_less(a, a),
    decreases a.len(),
{
    if a.len() > 0 {
        lemma_text_less_irreflexive(a.drop_first());
    }
}

/// Whether `a` sorts before `b` in code-point order.
pub fn text_lt(a: &Vec<char>, b: &Vec<char>) -> (r: bool)
    ensures
        r == text_less(a@, b@),
{
    let mut i: usize = 0;
    assert(a@.subrange(0, a@.len() as int) =~= a@);
    assert(b@.subrange(0, b@.len() as int) =~= b@);
    while i < a.len() && i < b.len() && a[i] == b[i]
        invariant
            i <= a@.len(),
            i <= b@.len(),
            text_less(a@, b@) == text_less(
                a@.subrange(i as int, a@.len() as int),
                b@.subrange(i as int, b@.len() as int),
            ),
        decreases a@.len() - i,
    {
        assert(a@.subrange(i as int, a@.len() as int).drop_first() =~= a@.subrange(
            i + 1,
            a@.len() as int,
        ));
        assert(b@.subrange(i as int, b@.len() as int).drop_first() =~= b@.subrange(
            i + 1,
            b@.len() as int,
        ));
        i = i + 1;
    }
    if i == a.len() {
        i < b.len()
    } else if i == b.len() {
        false
    } else {
        a[i] < b[i]
    }
}

/// A directory competing to receive its group's files.
#[derive(Clone, Debug)]
pub struct Contender {
    pub name: String,
    /// Alignment with the catalog name, in millionths.
    pub alignment: u64,
    pub file_count: u64,
}

/// Whether `a` ranks before `b`: higher alignment, then more files, then the smaller name.
pub open spec fn ranks_before(a: Contender, b: Contender) -> bool {
    a.alignment > b.alignment || (a.alignment == b.alignment && (a.file_count > b.file_count || (
    a.file_count == b.file_count && text_less(a.name@, b.name@))))
}

proof fn lemma_ranks_transitive(a: Contender, b: Contender, c: Contender)
    requires
        ranks_before(a, b),
        ranks_before(b, c),
    ensures
        ranks_before(a, c),
{
    if a.alignment == b.alignment && b.alignment == c.alignment && a.file_count == b.file_count
        && b.file_count == c.file_count {
        lemma_text_less_transitive(a.name@, b.name@, c.name@);
    }
}

fn ranks_first(a: &Contender, b: &Contender) -> (r: bool)
    ensures
        r == ranks_before(*a, *b),
{
    if a.alignment != b.alignment {
        return a.alignment > b.alignment;
    }
    if a.file_count != b.file_count {
        return a.file_count > b.file_count;
    }
    text_lt(&chars_of(a.name.as_str()), &chars_of(b.name.as_str()))
}

/// The directory that receives its group's files: one that no other contender ranks before.
pub fn pick_winner(contenders: &Vec<Contender>) -> (w: usize)
    requires
        contenders@.len() > 0,
    ensures
        w < contenders@.len(),
        forall|k: int| 0 <= k < contenders@.len() ==> !ranks_before(#[trigger] contenders@[k], contenders@[w as int]),
{
    let mut w: usize = 0;
    let mut k: usize = 1;
    proof {
        lemma_text_less_irreflexive(contenders@[0].name@);
    }
    while k < contenders.len()
        invariant
            1 <= k <= contenders@.len(),
            w < k,
            forall|j: int| 0 <= j < k ==> !ranks_before(#[trigger] contenders@[j], contenders@[w as int]),
        decreases contenders@.len() - k,
    {
        if ranks_first(&contenders[k], &contenders[w]) {
            proof {
                assert forall|j: int| 0 <= j < k + 1 implies !ranks_before(
                    #[trigger] contenders@[j],
                    contenders@[k as int],
                ) by {
                    if j < k && ranks_before(contenders@[j], contenders@[k as int]) {
                        lemma_ranks_transitive(contenders@[j], contenders@[k as int], contenders@[w as int]);
                    }
                    if j == k {
                        lemma_text_less_irreflexive(contenders@[j].name@);
                    }
                }
            }
            w = k;
        }
        k = k + 1;
    }
    w
}

/// What to do with one file of a merged directory when its place in the destination is
/// taken or free.
#[derive(Clone, Copy, Debug, PartialEq, Eq, Structural)]
pub enum MergeAction {
    /// The destination has no file there: move the source in.
    MoveIn,
    /// The source is larger: set the destination's file aside, move the source in, delete the
    /// set-aside file.
    Replace,
    /// The destination's file is at least as large: delete the source.
    DropSource,
}

/// Keep-larger rule: move in to a free place, replace a smaller file, else drop the source.
pub open spec fn merge_action_of(existing: Option<u64>, src_size: u64) -> MergeAction {
    match existing {
        None => MergeAction::MoveIn,
        Some(d) => if src_size > d {
            MergeAction::Replace
        } else {
            MergeAction::DropSource
        },
    }
}

/// Keep-larger rule for a file that a merge brings to a place in the destination;
/// `existing` is the size of the file already there, if any.
pub fn merge_action(existing: Option<u64>, src_size: u64) -> (r: MergeAction)
    ensures
        r == merge_action_of(existing, src_size),
{
    match existing {
        None => MergeAction::MoveIn,
        Some(d) => {
            if src_size > d {
                MergeAction::Replace
            } else {
                MergeAction::DropSource
            }
        },
    }
}

/// The size of the file at a place after one more file is merged there.
pub open spec fn size_after(existing: Option<u64>, src_size: u64) -> Option<u64> {
    match merge_action_of(existing, src_size) {
        MergeAction::MoveIn => Some(src_size),
        MergeAction::Replace => Some(src_size),
        MergeAction::DropSource => existing,
    }
}

/// The size at a place after the files of `sizes` are merged there in turn, starting from
/// `start`.
pub open spec fn size_after_all(start: Option<u64>, sizes: Seq<u64>) -> Option<u64>
    decreases sizes.len(),
{
    if sizes.len() == 0 {
        start
    } else {
        size_after(size_after_all(start, sizes.drop_last()), sizes.last())
    }
}

/// Keep-larger: after any sequence of merges into one place, the file kept there is at least
/// as large as the one first there and as every file merged in.
pub proof fn lemma_keep_larger(start: Option<u64>, sizes: Seq<u64>)
    ensures
        size_after_all(start, sizes) is Some <==> (start is Some || sizes.len() > 0),
        start is Some ==> size_after_all(start, sizes).unwrap() >= start.unwrap(),
        forall|i: int| 0 <= i < sizes.len() ==> size_after_all(start, sizes).unwrap() >= #[trigger] sizes[i],
    decreases sizes.len(),
{
    if sizes.len() > 0 {
        let p = sizes.drop_last();
        lemma_keep_larger(start, p);
        assert forall|i: int| 0 <= i < sizes.len() implies size_after_all(start, sizes).unwrap()
            >= #[trigger] sizes[i] by {
            if i < p.len() {
                assert(sizes[i] == p[i]);
            }
        }
    }
}

/// The positions of a group's members that take part in its merge: the directory still
/// exists and holds at least `min_files` files.
pub open spec fn eligible_upto(exists: Seq<bool>, counts: Seq<u64>, min_files: u64, n: int) -> Seq<usize>
    decreases n,
{
    if n <= 0 {
        Seq::empty()
    } else if exists[n - 1] && counts[n - 1] >= min_files {
        eligible_upto(exists, counts, min_files, n - 1).push((n - 1) as usize)
    } else {
        eligible_upto(exists, counts, min_files, n - 1)
    }
}

/// The members of a group that take part in its merge, in order; `None` when fewer than two
/// do, so that the group is left alone.
pub fn eligible_members(exists: &Vec<bool>, counts: &Vec<u64>, min_files: u64) -> (r: Option<Vec<usize>>)
    requires
        exists@.len() == counts@.len(),
    ensures
        r is Some <==> eligible_upto(exists@, counts@, min_files, exists@.len() as int).len() >= 2,
        r is Some ==> r.unwrap()@ == eligible_upto(exists@, counts@, min_files, exists@.len() as int),
{
    let mut out: Vec<usize> = Vec::new();
    let mut i: usize = 0;
    while i < exists.len()
        invariant
            i <= exists@.len(),
            exists@.len() == counts@.len(),
            out@ == eligible_upto(exists@, counts@, min_files, i as int),
        decreases exists@.len() - i,
    {
        if exists[i] && counts[i] >= min_files {
            out.push(i);
        }
        i = i + 1;
    }
    if out.len() >= 2 {
        Some(out)
    } else {
        None
    }
}

} // verus!
