use booksort::resolve::Suggestion;
use booksort::resolve::{format_probable_value, suggest_author, CandidateRow};
use booksort::score::{
    bigram_dice_score, length_ratio_score, lcs_length, prefix_score, score_pair, sequence_ratio,
    suffix_score, token_overlap_score, Ratio,
};

fn frac(r: Ratio) -> (u128, u128) {
    (r.num, r.den)
}

fn row(id: &str, name: &str, key: &str) -> CandidateRow {
    CandidateRow { author_id: id.to_string(), name: name.to_string(), name_normalized: key.to_string() }
}

#[test]
fn lcs_examples() {
    assert_eq!(lcs_length(b"abcd", b"abce"), 3);
    assert_eq!(lcs_length(b"", b"abc"), 0);
    assert_eq!(lcs_length(b"axbycz", b"abc"), 3);
}

#[test]
fn metric_exact_values() {
    assert_eq!(frac(sequence_ratio("abcd", "abce")), (6, 8));
    assert_eq!(frac(sequence_ratio("", "")), (1, 1));
    assert_eq!(frac(token_overlap_score("a b", "b c")), (1, 3));
    assert_eq!(frac(token_overlap_score("", "b c")), (0, 1));
    assert_eq!(frac(prefix_score("abc", "abd")), (2, 3));
    assert_eq!(frac(prefix_score("", "")), (0, 1));
    assert_eq!(frac(suffix_score("abc", "xbc")), (2, 3));
    assert_eq!(frac(bigram_dice_score("abc", "abd")), (2, 4));
    assert_eq!(frac(bigram_dice_score("a", "a")), (2, 2));
    assert_eq!(frac(length_ratio_score("ab", "abcd")), (2, 4));
    assert_eq!(frac(length_ratio_score("", "")), (0, 1));
}

#[test]
fn metrics_bounded_symmetric_and_one_on_self() {
    let pairs = [("victor hugo", "hugo victor"), ("gabrial", "gabriel garcia"), ("a", ""), ("x y z", "x")];
    for (a, b) in pairs {
        let s = score_pair(a, b);
        let t = score_pair(b, a);
        for r in [s.seq, s.token, s.prefix, s.suffix, s.ngram, s.lenratio] {
            assert!(r.den > 0 && r.num <= r.den);
        }
        assert_eq!(s.seq.num * t.seq.den, t.seq.num * s.seq.den);
        assert_eq!(s.token.num * t.token.den, t.token.num * s.token.den);
        assert_eq!(s.ngram.num * t.ngram.den, t.ngram.num * s.ngram.den);
        assert_eq!(s.lenratio.num * t.lenratio.den, t.lenratio.num * s.lenratio.den);
    }
    let same = score_pair("victor hugo", "victor hugo");
    for r in [same.seq, same.token, same.prefix, same.suffix, same.ngram, same.lenratio] {
        assert_eq!(r.num, r.den);
    }
    assert_eq!(same.total_millionths(), 6_000_000);
}

#[test]
fn probable_suggestion_from_neighbors() {
    let variants = vec!["gabriel garcia marques".to_string()];
    let rows = vec![vec![
        row("A9", "Gabriel Garcia", "gabriel garcia"),
        row("A2", "Gabriel García Márquez", "gabriel garcia marquez"),
        row("A3", "Zola", "zola"),
    ]];
    let s = suggest_author(&variants, &rows).unwrap();
    assert_eq!(s.author_id, "A2");
    assert_eq!(s.display_name, "Gabriel García Márquez");
    assert!(s.average_millionths() >= 650_000);
    let line = format_probable_value(&s);
    assert!(line.starts_with("A2|Gabriel García Márquez|avg:0."));
    assert!(line.contains("|seq:0.95|"));
    assert!(line.contains("|lenratio:1.00"));
}

#[test]
fn no_suggestion_below_floor() {
    let variants = vec!["victor hugo".to_string()];
    let rows = vec![vec![row("A1", "Zola", "zola")]];
    assert!(suggest_author(&variants, &rows).is_none());
    assert!(suggest_author(&vec![], &vec![]).is_none());
}

#[test]
fn early_exit_keeps_first_strong_variant() {
    let variants = vec!["victor hugo".to_string(), "hugo victor".to_string()];
    let rows = vec![vec![row("A1", "Victor Hugo", "victor hugo")], vec![row("B1", "Hugo Victor", "hugo victor")]];
    let s = suggest_author(&variants, &rows).unwrap();
    assert_eq!(s.author_id, "A1");
    assert_eq!(s.total, 6_000_000);
}

#[test]
fn misspelled_directory_scores_against_catalog_name() {
    let s = score_pair("gabrial garcia marques", "gabriel garcia marquez");
    assert_eq!(frac(s.seq), (40, 44));
    assert_eq!(frac(s.token), (1, 5));
    assert_eq!(frac(s.prefix), (5, 22));
    assert_eq!(frac(s.suffix), (0, 22));
    assert_eq!(frac(s.lenratio), (22, 22));
    let variants = vec!["gabrial garcia marques".to_string()];
    let rows = vec![vec![row("A2", "Gabriel García Márquez", "gabriel garcia marquez")]];
    assert!(suggest_author(&variants, &rows).is_none());
}

#[test]
fn probable_value_format_with_high_average() {
    let scores = score_pair("gabriel garcia marquez", "gabriel garcia marquez");
    let s = Suggestion {
        author_id: "OL1A".to_string(),
        display_name: "Gabriel García Márquez".to_string(),
        total: 5_580_000,
        scores,
    };
    assert_eq!(
        format_probable_value(&s),
        "OL1A|Gabriel García Márquez|avg:0.93|seq:1.00|token:1.00|prefix:1.00|suffix:1.00|ngram:1.00|lenratio:1.00"
    );
}
