use booksort::consolidate::eligible_members;
use booksort::sort::{raw_lookup_needed, strict_lookup_needed, title_blank};
use booksort::resolve::first_exact_hit;
use booksort::sort::{choose_final_title, choose_title_key, first_matching_work, normal_author, raw_pair_accepted, strict_probes, strict_work, ProbeKind, WorkCandidate, WorkRow};
use booksort::cleanup::{capitalize_first, has_accents, normalize_basename_for_group, plan_group_cleanup, FileEntry};
use booksort::consolidate::{
    alignment_score, effective_id, entry_best_probable_display, group_by_author_id,
    group_catalog_name, merge_action, pick_winner, AuthorEntry, Contender, MergeAction,
};
use booksort::resolve::{suggest_author, CandidateRow};
use booksort::sort::{
    already_processed, author_consistent, build_llm_prompt, dispose, extract_first_json_object,
    format_author_dir, normalize_name, normalize_text, parse_alternates, placed_file_name,
    raw_word_pairs, title_probe_patterns, work_matches_authors, Findings, Placement, RecordMode,
    SortMode, StateRecord,
};

fn entry(name: &str, id: Option<&str>, db: Option<&str>) -> AuthorEntry {
    AuthorEntry {
        name: name.to_string(),
        author_id: id.map(|s| s.to_string()),
        author_name_db: db.map(|s| s.to_string()),
        probable: None,
    }
}

fn findings(title_blank: bool, work_hit: bool, names_given: bool, author_found: bool, raw: bool) -> Findings {
    Findings { title_blank, work_hit, names_given, author_found, raw_pair_found: raw }
}

#[test]
fn exact_author_match_is_placed_strict() {
    assert_eq!(normalize_text("Les Misérables"), "les miserables");
    assert_eq!(normalize_name("Victor", "Hugo"), "victor hugo");
    let (p, m) = dispose(SortMode::Full, &findings(false, true, true, true, false));
    assert_eq!(p, Placement::SortedRenamed);
    assert_eq!(m, RecordMode::Strict);
    assert_eq!(m.tag(), "strict");
    assert_eq!(format_author_dir("Victor", "Hugo"), "Hugo, Victor");
    assert_eq!(
        placed_file_name("Les Misérables", "Victor", "Hugo", "epub"),
        "Les Misérables - Victor Hugo.epub"
    );
    let (a, b, c) = title_probe_patterns("les miserables", "les misérables");
    assert_eq!(a.unwrap(), "les miserables*");
    assert_eq!(b.unwrap(), "les miserables*");
    assert_eq!(c, "les misérables*");
    let (a, _, _) = title_probe_patterns("the count of monte cristo", "x");
    assert_eq!(a.unwrap(), "the count of mo*");
    let (a, b, _) = title_probe_patterns("   ", "x");
    assert!(a.is_none() && b.is_none());
}

#[test]
fn mode_decisions() {
    assert_eq!(dispose(SortMode::Normal, &findings(true, false, true, true, false)), (Placement::SortedVerbatim, RecordMode::Normal));
    assert_eq!(dispose(SortMode::Normal, &findings(false, true, false, false, false)), (Placement::FailAuthor, RecordMode::NormalFail));
    assert_eq!(dispose(SortMode::Strict, &findings(true, true, true, true, true)), (Placement::FailTitle, RecordMode::StrictFailTitle));
    assert_eq!(dispose(SortMode::Strict, &findings(false, false, true, true, true)), (Placement::FailAuthor, RecordMode::StrictFail));
    assert_eq!(dispose(SortMode::Strict, &findings(false, true, false, false, false)), (Placement::FailAuthor, RecordMode::StrictFailAuthor));
    assert_eq!(dispose(SortMode::Full, &findings(false, false, true, true, false)), (Placement::SortedRenamed, RecordMode::FullNormal));
    assert_eq!(dispose(SortMode::Full, &findings(false, false, false, false, true)), (Placement::SortedVerbatim, RecordMode::FullRaw));
    assert_eq!(dispose(SortMode::Full, &findings(false, false, true, false, false)), (Placement::FailAuthor, RecordMode::FullFail));
    assert_eq!(RecordMode::FullRaw.tag(), "full-raw");
    assert_eq!(RecordMode::StrictFailTitle.tag(), "strict-fail-title");
    assert!(RecordMode::FullNormal.is_success());
    assert!(!RecordMode::FullFail.is_success());
}

#[test]
fn copy_failure_resumes_cleanly() {
    let path = "/books/input/epub/a.epub";
    let mut log: Vec<StateRecord> = vec![StateRecord { path: "/books/input/epub/b.epub".to_string(), mode: RecordMode::Strict }];
    assert!(!already_processed(&log, path));
    log.push(StateRecord { path: path.to_string(), mode: RecordMode::NormalFail });
    assert!(!already_processed(&log, path));
    log.push(StateRecord { path: path.to_string(), mode: RecordMode::Normal });
    assert!(already_processed(&log, path));
}

#[test]
fn alternates_and_consistency() {
    assert_eq!(parse_alternates("A1, A2 ,A3"), vec!["A1", "A2", "A3"]);
    assert!(parse_alternates("").is_empty());
    let cands = vec!["A2".to_string()];
    assert!(work_matches_authors("A2", "", &cands));
    assert!(work_matches_authors("A9", "A1,A2", &cands));
    assert!(!work_matches_authors("A9", "A1,A22", &cands));
    assert!(author_consistent("", "A1", &vec![]));
    assert!(author_consistent("A3", "A1", &vec!["A3".to_string()]));
    assert!(!author_consistent("A4", "A1", &vec!["A3".to_string()]));
}

#[test]
fn raw_pairs_in_order() {
    let p = raw_word_pairs("hugo victor miserables");
    let got: Vec<(&str, &str)> = p.iter().map(|(a, b)| (a.as_str(), b.as_str())).collect();
    assert_eq!(got, vec![("hugo", "victor"), ("hugo", "miserables"), ("victor", "miserables")]);
    assert!(raw_word_pairs("one").is_empty());
}

#[test]
fn json_object_extraction() {
    let reply = "Sure! {\"title\": \"A {B}\", \"x\": {\"y\": 1}} trailing }";
    assert_eq!(
        extract_first_json_object(reply).unwrap(),
        "{\"title\": \"A {B}\", \"x\": {\"y\": 1}}"
    );
    assert_eq!(extract_first_json_object("} no object {"), None);
    assert_eq!(extract_first_json_object("{}"), Some("{}".to_string()));
}

#[test]
fn prompt_with_and_without_hints() {
    assert_eq!(build_llm_prompt("BASE", &vec![]), "BASE");
    let p = build_llm_prompt("BASE", &vec!["Victor Hugo".to_string(), "Émile Zola".to_string()]);
    assert!(p.starts_with("Tu dois répondre STRICTEMENT en JSON"));
    assert!(p.ends_with("Auteurs connus (partiel): Victor Hugo; Émile Zola\n\nBASE"));
    let long: Vec<String> = (0..5000).map(|i| format!("Author Number {}", i)).collect();
    let p = build_llm_prompt("B", &long);
    assert!(p.len() < 40_200);
    assert!(p.ends_with("\n\nB"));
}

#[test]
fn consolidation_with_keep_larger() {
    let entries = vec![
        entry("Dumas A", Some("OL1A"), Some("Alexandre Dumas")),
        entry("Dumas, Alexandre", Some("OL1A"), Some("Alexandre Dumas")),
        entry("Zola, Emile", Some("OL2A"), Some("Émile Zola")),
        entry("dumas alexandre", Some("OL1A"), Some("Alexandre Dumas")),
        entry("Unknown", None, None),
    ];
    let groups = group_by_author_id(&entries, 900_000);
    assert_eq!(groups.len(), 2);
    assert_eq!(groups[0].author_id, "OL1A");
    assert_eq!(groups[0].members, vec![0, 1, 3]);
    assert_eq!(groups[1].members, vec![2]);
    let members: Vec<AuthorEntry> = groups[0].members.iter().map(|&k| entries[k].clone()).collect();
    let db = group_catalog_name(&members);
    assert_eq!(db.as_deref(), Some("Alexandre Dumas"));
    let contenders: Vec<Contender> = members
        .iter()
        .zip([3u64, 5, 5])
        .map(|(e, n)| Contender { name: e.name.clone(), alignment: alignment_score(&e.name, &db), file_count: n })
        .collect();
    assert_eq!(alignment_score("Dumas, Alexandre", &db), 1_000_000);
    assert_eq!(alignment_score("dumas alexandre", &db), 1_000_000);
    assert_eq!(alignment_score("x", &None), 0);
    let w = pick_winner(&contenders);
    assert_eq!(contenders[w].name, "Dumas, Alexandre");
    assert_eq!(merge_action(None, 10), MergeAction::MoveIn);
    assert_eq!(merge_action(Some(5), 10), MergeAction::Replace);
    assert_eq!(merge_action(Some(10), 10), MergeAction::DropSource);
    assert_eq!(merge_action(Some(12), 10), MergeAction::DropSource);
}

#[test]
fn probable_ids_group_above_threshold() {
    let rows = vec![vec![CandidateRow {
        author_id: "OL9A".to_string(),
        name: "Victor Hugo".to_string(),
        name_normalized: "victor hugo".to_string(),
    }]];
    let s = suggest_author(&vec!["victor hugo".to_string()], &rows).unwrap();
    let mut e = entry("Hugo Victor", None, None);
    e.probable = Some(s);
    assert_eq!(effective_id(&e, 900_000).as_deref(), Some("OL9A"));
    assert_eq!(entry_best_probable_display(&vec![e.clone()]).as_deref(), Some("Victor Hugo"));
    assert_eq!(effective_id(&entry("x", None, None), 0), None);
}

#[test]
fn filename_cleanup_preserves_accents() {
    assert_eq!(normalize_basename_for_group("étude"), "etude");
    assert_eq!(normalize_basename_for_group("  Le_Rouge-et  le Noir!! "), "le rouge et le noir");
    assert!(has_accents("étude"));
    assert!(has_accents("e\u{301}tude"));
    assert!(!has_accents("etude"));
    assert!(!has_accents("\u{212A}elvin"));
    assert_eq!(capitalize_first("étude"), "Étude");
    assert_eq!(capitalize_first(""), "");
    let files = vec![
        FileEntry { stem: "étude".to_string(), ext: "epub".to_string(), size: 5_000 },
        FileEntry { stem: "etude".to_string(), ext: "epub".to_string(), size: 10_000 },
    ];
    let plans = plan_group_cleanup(&files);
    assert_eq!(plans.len(), 1);
    assert_eq!(plans[0].keep, 0);
    assert_eq!(plans[0].target_name, "Etude.epub");
    assert_eq!(plans[0].remove, vec![1]);
}

#[test]
fn filename_cleanup_keeps_larger_without_accents() {
    let files = vec![
        FileEntry { stem: "le rouge".to_string(), ext: "pdf".to_string(), size: 1 },
        FileEntry { stem: "Le_Rouge".to_string(), ext: "pdf".to_string(), size: 9 },
        FileEntry { stem: "autre".to_string(), ext: "".to_string(), size: 3 },
    ];
    let plans = plan_group_cleanup(&files);
    assert_eq!(plans.len(), 2);
    assert_eq!(plans[0].keep, 1);
    assert_eq!(plans[0].target_name, "Le rouge.pdf");
    assert_eq!(plans[0].remove, vec![0]);
    assert_eq!(plans[1].target_name, "Autre");
}

#[test]
fn consolidation_rerun_changes_nothing() {
    for name in ["Dumas, Alexandre", "Hugo, Victor", "Zola", "_Con", "De La Fontaine, Jean"] {
        assert_eq!(booksort::normalize::target_dir_name(name), name);
    }
    let entries = vec![entry("Dumas, Alexandre", Some("OL1A"), Some("Alexandre Dumas")), entry("Zola", Some("OL2A"), None)];
    let groups = group_by_author_id(&entries, 900_000);
    assert!(groups.iter().all(|g| g.members.len() < 2));
}

#[test]
fn success_records_only_for_sorted_placements() {
    for mode in [SortMode::Strict, SortMode::Normal, SortMode::Full] {
        for bits in 0u8..32 {
            let f = findings(bits & 1 != 0, bits & 2 != 0, bits & 4 != 0, bits & 8 != 0, bits & 16 != 0);
            let (p, m) = dispose(mode, &f);
            let sorted = p == Placement::SortedVerbatim || p == Placement::SortedRenamed;
            assert_eq!(m.is_success(), sorted);
        }
    }
}

#[test]
fn author_dir_round_trip() {
    for name in ["Hugo, Victor", "Garcia Marquez, Gabriel", "Dumas, Alexandre Davy"] {
        let (first, last) = booksort::alias::pick_first_last(name, "unused label");
        assert_eq!(format_author_dir(&first, &last), name);
    }
}

#[test]
fn full_mode_falls_back_on_any_strict_failure() {
    assert_eq!(dispose(SortMode::Full, &findings(true, false, false, false, true)), (Placement::SortedVerbatim, RecordMode::FullRaw));
    assert_eq!(dispose(SortMode::Full, &findings(true, false, true, true, false)), (Placement::SortedRenamed, RecordMode::FullNormal));
    assert_eq!(dispose(SortMode::Full, &findings(false, true, false, false, false)), (Placement::FailAuthor, RecordMode::FullFail));
    assert_eq!(dispose(SortMode::Full, &findings(false, true, false, false, true)), (Placement::SortedVerbatim, RecordMode::FullRaw));
    assert_eq!(dispose(SortMode::Full, &findings(true, false, false, false, false)), (Placement::FailAuthor, RecordMode::FullFail));
}

#[test]
fn text_key_maps_punctuation_to_spaces() {
    assert_eq!(normalize_text("Hugo,Victor"), "hugo victor");
    assert_eq!(normalize_text("  L'Étranger — Camus!  "), "l etranger camus");
    let once = normalize_text("Hugo,Victor (1802)");
    assert_eq!(normalize_text(&once), once);
}

#[test]
fn strict_cascade_order() {
    let p = strict_probes("the count of monte cristo", "le comte de monte-cristo");
    let got: Vec<(ProbeKind, &str)> = p.iter().map(|x| (x.kind, x.pattern.as_str())).collect();
    assert_eq!(
        got,
        vec![
            (ProbeKind::KeyGlob, "the count of mo*"),
            (ProbeKind::KeyGlob, "the count of monte cristo*"),
            (ProbeKind::TitleGlob, "le comte de monte-cristo*"),
            (ProbeKind::KeyExact, "the count of monte cristo"),
        ]
    );
    let p = strict_probes("", "x");
    assert_eq!(p.len(), 2);
    assert_eq!(p[0].kind, ProbeKind::TitleGlob);
}

#[test]
fn strict_work_keeps_consistent_hits() {
    let w = |id: &str, a: &str| WorkRow { work_id: id.to_string(), title: "T".to_string(), author_id: a.to_string() };
    let guessed = Some(("A1".to_string(), vec!["A2".to_string()]));
    assert_eq!(strict_work(&Some(w("W1", "A2")), &None, &guessed).unwrap().work_id, "W1");
    assert!(strict_work(&Some(w("W1", "A9")), &None, &guessed).is_none());
    assert_eq!(strict_work(&Some(w("W1", "A9")), &None, &None).unwrap().work_id, "W1");
    assert_eq!(strict_work(&None, &Some(w("W2", "A1")), &guessed).unwrap().work_id, "W2");
    assert!(strict_work(&None, &Some(w("W2", "A1")), &None).is_none());
    assert_eq!(strict_work(&Some(w("W1", "")), &None, &guessed).unwrap().work_id, "W1");
}

#[test]
fn author_filtered_work_pick() {
    let c = |id: &str, a: &str, alts: &str| WorkCandidate {
        row: WorkRow { work_id: id.to_string(), title: "T".to_string(), author_id: a.to_string() },
        alternates: alts.to_string(),
    };
    let rows = vec![c("W1", "A9", ""), c("W2", "A8", "A7,A1"), c("W3", "A1", "")];
    assert_eq!(first_matching_work(&rows, &vec!["A1".to_string()]), Some(1));
    assert_eq!(first_matching_work(&rows, &vec!["A5".to_string()]), None);
}

#[test]
fn guess_driven_choices() {
    let s = |x: &str| Some(x.to_string());
    assert_eq!(choose_title_key(&s("Les Misérables"), &s("  ")), "les miserables");
    assert_eq!(choose_title_key(&s("X"), &s("Notre-Dame de Paris")), "notre-dame de paris");
    assert_eq!(choose_title_key(&None, &None), "");
    assert_eq!(normal_author("Victor", "Hugo", true, false), Some(("Victor".to_string(), "Hugo".to_string())));
    assert_eq!(normal_author("Hugo", "Victor", false, true), Some(("Victor".to_string(), "Hugo".to_string())));
    assert_eq!(normal_author("Hugo", "", true, true), None);
    assert_eq!(normal_author("a", "b", false, false), None);
    assert!(raw_pair_accepted("victor hugo miserables", "victor", "hugo", true));
    assert!(!raw_pair_accepted("victor hugo", "victor", "zola", true));
    assert!(!raw_pair_accepted("victor hugo", "victor", "hugo", false));
    assert_eq!(choose_final_title(true, &s("Online"), "Db", &s("Guess"), "f.epub"), "Online");
    assert_eq!(choose_final_title(true, &None, "Db", &s("Guess"), "f.epub"), "Db");
    assert_eq!(choose_final_title(false, &s("Online"), "Db", &s("Guess"), "f.epub"), "Guess");
    assert_eq!(choose_final_title(false, &None, "Db", &None, "f.epub"), "f.epub");
}

#[test]
fn first_exact_hit_in_order() {
    let h = |x: &str| Some((x.to_string(), x.to_string()));
    assert_eq!(first_exact_hit(&vec![None, h("A"), h("B")]), Some(1));
    assert_eq!(first_exact_hit(&vec![None, None]), None);
    assert_eq!(first_exact_hit(&vec![]), None);
}

#[test]
fn lookup_plan_follows_dispose() {
    assert!(strict_lookup_needed(SortMode::Full, "les miserables"));
    assert!(!strict_lookup_needed(SortMode::Full, "  "));
    assert!(!strict_lookup_needed(SortMode::Normal, "les miserables"));
    assert!(title_blank(" \t"));
    assert!(raw_lookup_needed(SortMode::Full, &findings(true, false, false, false, false)));
    assert!(!raw_lookup_needed(SortMode::Full, &findings(false, true, true, false, false)));
    assert!(!raw_lookup_needed(SortMode::Full, &findings(false, false, true, true, false)));
    assert!(raw_lookup_needed(SortMode::Full, &findings(false, true, false, false, false)));
    assert!(!raw_lookup_needed(SortMode::Strict, &findings(false, false, false, false, false)));
}

#[test]
fn eligible_members_drop_missing_and_small() {
    assert_eq!(eligible_members(&vec![true, false, true, true], &vec![3, 9, 0, 5], 1), Some(vec![0, 3]));
    assert_eq!(eligible_members(&vec![true, true], &vec![3, 0], 1), None);
    assert_eq!(eligible_members(&vec![true], &vec![3], 0), None);
    assert_eq!(eligible_members(&vec![true, true], &vec![0, 0], 0), Some(vec![0, 1]));
}

#[test]
fn display_names_capitalize_ascii() {
    assert_eq!(booksort::normalize::normalize_author_display("Plato"), "Plato");
    assert_eq!(booksort::normalize::normalize_author_display("VICTOR HUGO"), "Hugo, Victor");
    assert_eq!(booksort::normalize::normalize_author_display("hugo, victor"), "Hugo, Victor");
    assert_eq!(booksort::normalize::normalize_author_display("Jean-Paul Sartre"), "Sartre, Jean Paul");
    assert_eq!(booksort::normalize::normalize_author_display("Émile Zola"), "Zola, Emile");
    assert_eq!(booksort::normalize::normalize_author_display(""), "_");
}
