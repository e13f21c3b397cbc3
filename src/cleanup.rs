use vstd::prelude::*;
use vstd::utf8::is_ascii_chars;
use crate::normalize::{trim_both, trim_chars, trim_start, TrimSet};
use crate::sort::{comma_fields, split_commas};
use crate::replace::{regex_replace_all, regex_replaced};
use crate::sets::{distinct, distinct_items, same_chars};
use crate::text::{append_chars, ascii_lower_seq, lower_ascii, chars_of, collapse_whitespace, collapse_ws, string_of};
use crate::unicode::{compose_canonical, lower_chars, lowered, nfc_of, upper_first, uppercase_char};

verus! {

/// The ASCII transliteration of a text.
pub uninterp spec fn transliterated(s: Seq<char>) -> Seq<char>;

/// Relies on `unidecode::unidecode`: the ASCII transliteration of each character; the
/// result is ASCII, and each ASCII character is mapped to itself.
#[verifier::external_body]
fn to_ascii_transliteration(s: &str) -> (r: String)
    ensures
        r@ == transliterated(s@),
        is_ascii_chars(r@),
        is_ascii_chars(s@) ==> r@ == s@,
{
    unidecode::unidecode(s)
}

/// The key that groups variants of one file name: trimmed, lower-cased, separator runs as one
/// space, punctuation dropped, transliterated to ASCII, whitespace collapsed.
pub open spec fn group_key(stem: Seq<char>) -> Seq<char> {
    collapse_ws(
        transliterated(
            regex_replaced(
                r"[^\p{L}\p{N} ]+"@,
                regex_replaced(r"[\s_\-]+"@, lowered(trim_both(stem, TrimSet::Whitespace)), " "@),
                ""@,
            ),
        ),
    )
}

/// The key that groups variants of one file name.
pub fn normalize_basename_for_group(name: &str) -> (r: String)
    ensures
        r@ == group_key(name@),
{
    let lower = string_of(&lower_chars(&trim_chars(&chars_of(name), TrimSet::Whitespace)));
    let spaced = regex_replace_all(r"[\s_\-]+", lower.as_str(), " ");
    let dropped = regex_replace_all(r"[^\p{L}\p{N} ]+", spaced.as_str(), "");
    let ascii = to_ascii_transliteration(dropped.as_str());
    string_of(&collapse_whitespace(&chars_of(ascii.as_str())))
}

/// Whether a name holds a non-ASCII character once composed (NFC).
pub open spec fn accented(s: Seq<char>) -> bool {
    !is_ascii_chars(s) && !is_ascii_chars(nfc_of(s))
}

fn all_ascii(v: &Vec<char>) -> (r: bool)
    ensures
        r == is_ascii_chars(v@),
{
    let mut i: usize = 0;
    while i < v.len()
        invariant
            i <= v@.len(),
            forall|k: int| 0 <= k < i ==> '\0' <= #[trigger] v@[k] <= '\u{7f}',
        decreases v@.len() - i,
    {
        if !('\0' <= v[i] && v[i] <= '\u{7f}') {
            return false;
        }
        i = i + 1;
    }
    true
}

/// Whether `s` holds a non-ASCII character once composed (NFC).
pub fn has_accents(s: &str) -> (r: bool)
    ensures
        r == accented(s@),
{
    let composed = compose_canonical(s);
    !all_ascii(&chars_of(composed.as_str()))
}

/// `s` with its first character upper-cased.
pub open spec fn capitalized_first(s: Seq<char>) -> Seq<char> {
    if s.len() == 0 {
        s
    } else {
        upper_first(s[0]) + s.drop_first()
    }
}

/// `s` with its first character upper-cased.
pub fn capitalize_first(s: &str) -> (r: String)
    ensures
        r@ == capitalized_first(s@),
{
    let v = chars_of(s);
    if v.len() == 0 {
        return string_of(&v);
    }
    let up = uppercase_char(v[0]);
    let mut out = chars_of(up.as_str());
    let mut i: usize = 1;
    let ghost base = out@;
    while i < v.len()
        invariant
            1 <= i <= v@.len(),
            out@ =~= base + v@.subrange(1, i as int),
        decreases v@.len() - i,
    {
        out.push(v[i]);
        i = i + 1;
    }
    assert(v@.subrange(1, v@.len() as int) =~= v@.drop_first());
    string_of(&out)
}

/// A file of a group directory.
#[derive(Clone, Debug)]
pub struct FileEntry {
    /// The name without its extension.
    pub stem: String,
    /// The extension, without the dot; empty when there is none.
    pub ext: String,
    pub size: u64,
}

/// Whether a candidate replaces the file kept so far: the accented one of the two wins, else
/// the strictly larger one.
pub open spec fn replaces(best_acc: bool, best_size: u64, cand_acc: bool, cand_size: u64) -> bool {
    if best_acc && !cand_acc {
        false
    } else if !best_acc && cand_acc {
        true
    } else {
        best_size < cand_size
    }
}

/// The file kept among the first `n` files whose key is `key`, by position.
pub open spec fn kept_upto(
    keys: Seq<Seq<char>>,
    acc: Seq<bool>,
    sizes: Seq<u64>,
    key: Seq<char>,
    n: int,
) -> Option<int>
    decreases n,
{
    if n <= 0 {
        None
    } else {
        let prev = kept_upto(keys, acc, sizes, key, n - 1);
        if keys[n - 1] != key {
            prev
        } else {
            match prev {
                None => Some(n - 1),
                Some(b) => if replaces(acc[b], sizes[b], acc[n - 1], sizes[n - 1]) {
                    Some(n - 1)
                } else {
                    prev
                },
            }
        }
    }
}

/// The positions among the first `n` files with key `key`, other than `keep`, in order.
pub open spec fn others_upto(keys: Seq<Seq<char>>, key: Seq<char>, keep: int, n: int) -> Seq<usize>
    decreases n,
{
    if n <= 0 {
        Seq::empty()
    } else if keys[n - 1] == key && n - 1 != keep {
        others_upto(keys, key, keep, n - 1).push((n - 1) as usize)
    } else {
        others_upto(keys, key, keep, n - 1)
    }
}

/// The new name of a kept file: its key with the first letter capitalized, then the
/// extension if there is one.
pub open spec fn target_name_of(key: Seq<char>, ext: Seq<char>) -> Seq<char> {
    if ext.len() == 0 {
        capitalized_first(key)
    } else {
        capitalized_first(key) + seq!['.'] + ext
    }
}

/// What happens to one group of file-name variants.
#[derive(Clone, Debug)]
pub struct GroupPlan {
    pub key: String,
    /// Position of the file that stays.
    pub keep: usize,
    /// Its new name.
    pub target_name: String,
    /// Positions of the files deleted.
    pub remove: Vec<usize>,
}

/// The group key of each file.
pub open spec fn file_keys(files: Seq<FileEntry>) -> Seq<Seq<char>> {
    Seq::new(files.len(), |i: int| group_key(files[i].stem@))
}

/// Whether each file name is accented.
pub open spec fn file_accents(files: Seq<FileEntry>) -> Seq<bool> {
    Seq::new(files.len(), |i: int| accented(files[i].stem@))
}

/// The size of each file.
pub open spec fn file_sizes(files: Seq<FileEntry>) -> Seq<u64> {
    Seq::new(files.len(), |i: int| files[i].size)
}

/// One plan per group key, in order of first appearance; in each, the kept file by the
/// accent-then-size rule, its new name, and the other files of the group to delete.
pub open spec fn is_cleanup_plan(plans: Seq<GroupPlan>, files: Seq<FileEntry>) -> bool {
    let keys = file_keys(files);
    let ks = distinct(keys);
    &&& plans.len() == ks.len()
    &&& forall|g: int|
        0 <= g < plans.len() ==> {
            let p = #[trigger] plans[g];
            let keep = kept_upto(keys, file_accents(files), file_sizes(files), ks[g], files.len() as int);
            &&& p.key@ == ks[g]
            &&& keep == Some(p.keep as int)
            &&& p.target_name@ == target_name_of(ks[g], files[p.keep as int].ext@)
            &&& p.remove@ == others_upto(keys, ks[g], p.keep as int, files.len() as int)
        }
}

proof fn lemma_kept_bound(keys: Seq<Seq<char>>, acc: Seq<bool>, sizes: Seq<u64>, key: Seq<char>, n: int)
    ensures
        kept_upto(keys, acc, sizes, key, n) is Some ==> 0 <= kept_upto(keys, acc, sizes, key, n).unwrap() < n,
    decreases n,
{
    if n > 0 {
        lemma_kept_bound(keys, acc, sizes, key, n - 1);
    }
}

proof fn lemma_kept_some(keys: Seq<Seq<char>>, acc: Seq<bool>, sizes: Seq<u64>, key: Seq<char>, n: int)
    requires
        0 <= n <= keys.len(),
        exists|i: int| 0 <= i < n && keys[i] == key,
    ensures
        kept_upto(keys, acc, sizes, key, n) is Some,
        0 <= kept_upto(keys, acc, sizes, key, n).unwrap() < n,
    decreases n,
{
    lemma_kept_bound(keys, acc, sizes, key, n);
    if keys[n - 1] != key {
        let i = choose|i: int| 0 <= i < n && keys[i] == key;
        assert(i < n - 1);
        lemma_kept_some(keys, acc, sizes, key, n - 1);
    }
}

/// Plans the clean-up of one directory: files whose names share a group key are variants of
/// one book; the accented variant is kept over an unaccented one, else the larger; it is
/// renamed to the capitalized key, and the others are deleted.
pub fn plan_group_cleanup(files: &Vec<FileEntry>) -> (r: Vec<GroupPlan>)
    ensures
        is_cleanup_plan(r@, files@),
{
    let ghost keys_v = file_keys(files@);
    let ghost acc_v = file_accents(files@);
    let ghost sizes_v = file_sizes(files@);
    let mut keys: Vec<Vec<char>> = Vec::new();
    let mut acc: Vec<bool> = Vec::new();
    let mut i: usize = 0;
    while i < files.len()
        invariant
            i <= files@.len(),
            keys_v == file_keys(files@),
            acc_v == file_accents(files@),
            keys.deep_view() =~= keys_v.subrange(0, i as int),
            acc@ =~= acc_v.subrange(0, i as int),
        decreases files@.len() - i,
    {
        let k = chars_of(normalize_basename_for_group(files[i].stem.as_str()).as_str());
        assert(k.deep_view() =~= k@);
        let ghost d = keys.deep_view();
        keys.push(k);
        assert(keys.deep_view() =~= d.push(keys_v[i as int]));
        acc.push(has_accents(files[i].stem.as_str()));
        i = i + 1;
    }
    assert(keys.deep_view() =~= keys_v);
    assert(acc@ =~= acc_v);
    let ks = distinct_items(&keys);
    proof {
        crate::sets::lemma_distinct(keys_v);
    }
    let mut plans: Vec<GroupPlan> = Vec::new();
    let mut g: usize = 0;
    while g < ks.len()
        invariant
            g <= ks@.len(),
            keys.deep_view() == keys_v,
            acc@ == acc_v,
            keys_v == file_keys(files@),
            acc_v == file_accents(files@),
            sizes_v == file_sizes(files@),
            ks.deep_view() == distinct(keys_v),
            distinct(keys_v).to_set() == keys_v.to_set(),
            plans@.len() == g,
            forall|h: int|
                0 <= h < g ==> {
                    let p = #[trigger] plans@[h];
                    let ks_v = distinct(keys_v);
                    let keep = kept_upto(keys_v, acc_v, sizes_v, ks_v[h], files@.len() as int);
                    &&& p.key@ == ks_v[h]
                    &&& keep == Some(p.keep as int)
                    &&& p.target_name@ == target_name_of(ks_v[h], files@[p.keep as int].ext@)
                    &&& p.remove@ == others_upto(keys_v, ks_v[h], p.keep as int, files@.len() as int)
                },
        decreases ks@.len() - g,
    {
        let key = &ks[g];
        assert(ks@[g as int].deep_view() =~= ks@[g as int]@);
        let ghost kv = key@;
        assert(kv == distinct(keys_v)[g as int]);
        proof {
            assert(distinct(keys_v).to_set().contains(kv));
            assert(keys_v.to_set().contains(kv));
            assert(keys_v.contains(kv));
        }
        let mut keep: usize = 0;
        let mut found = false;
        let mut j: usize = 0;
        while j < files.len()
            invariant
                j <= files@.len(),
                keys.deep_view() == keys_v,
                acc@ == acc_v,
                sizes_v == file_sizes(files@),
                keys_v.len() == files@.len(),
                acc_v.len() == files@.len(),
                key@ == kv,
                found == kept_upto(keys_v, acc_v, sizes_v, kv, j as int) is Some,
                found ==> kept_upto(keys_v, acc_v, sizes_v, kv, j as int) == Some(keep as int),
                found ==> keep < j,
            decreases files@.len() - j,
        {
            assert(keys@[j as int].deep_view() =~= keys@[j as int]@);
            if same_chars(&keys[j], key) {
                if !found || {
                    let (ba, bs, ca, cs) = (acc[keep], files[keep].size, acc[j], files[j].size);
                    if ba && !ca {
                        false
                    } else if !ba && ca {
                        true
                    } else {
                        bs < cs
                    }
                } {
                    keep = j;
                    found = true;
                }
            }
            j = j + 1;
        }
        proof {
            lemma_kept_some(keys_v, acc_v, sizes_v, kv, files@.len() as int);
        }
        let mut remove: Vec<usize> = Vec::new();
        let mut q: usize = 0;
        while q < files.len()
            invariant
                q <= files@.len(),
                keys.deep_view() == keys_v,
                keys_v.len() == files@.len(),
                key@ == kv,
                remove@ == others_upto(keys_v, kv, keep as int, q as int),
            decreases files@.len() - q,
        {
            assert(keys@[q as int].deep_view() =~= keys@[q as int]@);
            if q != keep && same_chars(&keys[q], key) {
                remove.push(q);
            }
            q = q + 1;
        }
        let cap = capitalize_first(string_of(key).as_str());
        let ext = &files[keep].ext;
        let target = if ext.as_str().is_empty() {
            cap
        } else {
            let mut t = chars_of(cap.as_str());
            t.push('.');
            append_chars(&mut t, &chars_of(ext.as_str()));
            string_of(&t)
        };
        assert(target@ =~= target_name_of(kv, files@[keep as int].ext@));
        plans.push(GroupPlan { key: string_of(key), keep, target_name: target, remove });
        g = g + 1;
    }
    plans
}

/// The extensions named by a comma-separated list: each trimmed, without leading dots,
/// lower-cased, empty ones left out; `None` for a blank list (every extension).
pub open spec fn exts_of(list: Seq<char>) -> Option<Seq<Seq<char>>> {
    let t = trim_both(list, TrimSet::Whitespace);
    if t.len() == 0 {
        None
    } else {
        Some(cleaned_exts(comma_fields(t)))
    }
}

/// One listed extension: trimmed, without leading dots, lower-cased.
pub open spec fn clean_ext(f: Seq<char>) -> Seq<char> {
    ascii_lower_seq(trim_start(trim_both(f, TrimSet::Whitespace), TrimSet::Dots))
}

/// The cleaned extensions of the fields, empty ones left out.
pub open spec fn cleaned_exts(fields: Seq<Seq<char>>) -> Seq<Seq<char>>
    decreases fields.len(),
{
    if fields.len() == 0 {
        Seq::empty()
    } else if clean_ext(fields.last()).len() == 0 {
        cleaned_exts(fields.drop_last())
    } else {
        cleaned_exts(fields.drop_last()).push(clean_ext(fields.last()))
    }
}

fn drop_leading_dots(v: &Vec<char>) -> (r: Vec<char>)
    ensures
        r@ == trim_start(v@, TrimSet::Dots),
{
    let n = v.len();
    let mut i: usize = 0;
    assert(v@.subrange(0, n as int) =~= v@);
    while i < n && v[i] == '.'
        invariant
            n == v@.len(),
            i <= n,
            trim_start(v@, TrimSet::Dots) == trim_start(v@.subrange(i as int, n as int), TrimSet::Dots),
        decreases n - i,
    {
        assert(v@.subrange(i as int, n as int).drop_first() =~= v@.subrange(i + 1, n as int));
        i = i + 1;
    }
    let mut r: Vec<char> = Vec::new();
    let mut k: usize = i;
    while k < n
        invariant
            i <= k <= n,
            n == v@.len(),
            r@ =~= v@.subrange(i as int, k as int),
        decreases n - k,
    {
        r.push(v[k]);
        k = k + 1;
    }
    assert(trim_start(v@.subrange(i as int, n as int), TrimSet::Dots) =~= v@.subrange(i as int, n as int));
    r
}

/// The extensions named by a comma-separated list; `None` for a blank list.
pub fn parse_exts(exts: &str) -> (r: Option<Vec<String>>)
    ensures
        r is Some == exts_of(exts@) is Some,
        r is Some ==> r.unwrap()@.len() == exts_of(exts@).unwrap().len(),
        r is Some ==> forall|i: int|
            0 <= i < r.unwrap()@.len() ==> (#[trigger] r.unwrap()@[i])@ == exts_of(exts@).unwrap()[i],
{
    let t = trim_chars(&chars_of(exts), TrimSet::Whitespace);
    if t.len() == 0 {
        return None;
    }
    let fields = split_commas(&t);
    let mut out: Vec<String> = Vec::new();
    let ghost mut outv: Seq<Seq<char>> = Seq::empty();
    let mut i: usize = 0;
    while i < fields.len()
        invariant
            i <= fields@.len(),
            fields.deep_view() == comma_fields(t@),
            outv == cleaned_exts(fields.deep_view().subrange(0, i as int)),
            out@.len() == outv.len(),
            forall|j: int| 0 <= j < out@.len() ==> (#[trigger] out@[j])@ == outv[j],
        decreases fields@.len() - i,
    {
        let ghost sub = fields.deep_view().subrange(0, i + 1);
        assert(sub.drop_last() =~= fields.deep_view().subrange(0, i as int));
        assert(fields@[i as int].deep_view() =~= fields@[i as int]@);
        let e = lower_ascii(&drop_leading_dots(&trim_chars(&fields[i], TrimSet::Whitespace)));
        if e.len() > 0 {
            out.push(string_of(&e));
            proof {
                outv = outv.push(e@);
            }
        }
        i = i + 1;
    }
    assert(fields.deep_view().subrange(0, fields@.len() as int) =~= fields.deep_view());
    Some(out)
}


} // verus!
