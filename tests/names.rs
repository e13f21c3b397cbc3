use booksort::alias::{
    format_author_dir as alias_author_dir, invert_first_last, normalize_query, pick_first_last,
    sanitize_dir_name, truncate,
};
use booksort::candidates::{generate_candidates, normalized_variants, remove_numeric_tokens, strip_enclosures};
use booksort::normalize::{
    capitalize_words, normalize_author_display, normalize_for_compare, normalize_name,
    sanitize_component, target_dir_name,
};
use booksort::unicode::strip_accents;

fn text(v: Vec<char>) -> String {
    v.into_iter().collect()
}

fn chars(s: &str) -> Vec<char> {
    s.chars().collect()
}

#[test]
fn normalize_strips_accents_and_punctuation() {
    assert_eq!(normalize_name("Gabriel García Márquez"), "gabriel garcia marquez");
    assert_eq!(normalize_name("  Hugo,   Victor  "), "hugo victor");
    assert_eq!(normalize_name("Jean-Paul Sartre"), "jean-paul sartre");
    assert_eq!(normalize_name("ÉCOLE"), "ecole");
    assert_eq!(normalize_name(""), "");
}

#[test]
fn normalize_is_idempotent_on_examples() {
    for s in ["Gabriel García Márquez", "J. R. R. Tolkien", "O'Brien, Flann (1911)", "ÆSOP", "  "] {
        let once = normalize_name(s);
        assert_eq!(normalize_name(&once), once);
    }
}

#[test]
fn compare_key_drops_dashes() {
    assert_eq!(text(normalize_for_compare("Jean-Paul Sartre")), "jean paul sartre");
}

#[test]
fn strip_accents_uses_decomposition() {
    assert_eq!(text(strip_accents("Émile Zola")), "Emile Zola");
}

#[test]
fn sanitize_component_cases() {
    assert_eq!(sanitize_component("con"), "_con");
    assert_eq!(sanitize_component("LPT3"), "_LPT3");
    assert_eq!(sanitize_component("a<b>c"), "a_b_c");
    assert_eq!(sanitize_component("..."), "_");
    assert_eq!(sanitize_component(""), "_");
    assert_eq!(sanitize_component(" .x. "), "x");
    assert_eq!(sanitize_component("What? Why: *"), "What_ Why_ _");
}

#[test]
fn sanitize_component_never_forbidden_nor_empty() {
    for s in ["<>:\"/\\|?*", "  ", "nul", "Dumas, Alexandre", "a/b"] {
        let r = sanitize_component(s);
        assert!(!r.is_empty());
        assert!(!r.chars().any(|c| "<>:\"/\\|?*".contains(c)));
    }
}

#[test]
fn author_display_forms() {
    assert_eq!(normalize_author_display("HUGO, VICTOR"), "Hugo, Victor");
    assert_eq!(normalize_author_display("victor hugo"), "Hugo, Victor");
    assert_eq!(normalize_author_display("Jean-Paul_Sartre"), "Sartre, Jean Paul");
    assert_eq!(normalize_author_display("Molière"), "Moliere");
    assert_eq!(normalize_author_display("   "), "_");
    assert_eq!(normalize_author_display("émile zola"), "Zola, Emile");
}

#[test]
fn capitalize_words_uses_unicode_case() {
    assert_eq!(text(capitalize_words(&chars("élodie  DUPONT"))), "Élodie Dupont");
}

#[test]
fn target_dir_name_combines_display_and_sanitize() {
    assert_eq!(target_dir_name("dumas alexandre"), "Alexandre, Dumas");
    assert_eq!(target_dir_name("Dumas, Alexandre"), "Dumas, Alexandre");
}

#[test]
fn enclosures_and_numbers_removed() {
    assert_eq!(strip_enclosures("Hugo [FR] (1802)"), "Hugo    ");
    assert_eq!(text(remove_numeric_tokens(&chars("Hugo 1802 Victor 2x"))), "Hugo Victor 2x");
}

#[test]
fn candidates_in_priority_order() {
    let c: Vec<String> = generate_candidates("Hugo, Victor (1802)").into_iter().map(text).collect();
    assert_eq!(c[0], "Hugo, Victor (1802)");
    assert_eq!(c[1], "Victor (1802) Hugo");
    assert!(c.contains(&"Hugo, Victor  ".to_string()));
    assert!(c.contains(&"Victor Hugo".to_string()));
    assert!(generate_candidates("   ").is_empty());
}

#[test]
fn initial_reordering() {
    let v = normalized_variants("J. R. R. Tolkien");
    assert_eq!(v[0], "j r r tolkien");
    assert!(v.contains(&"tolkien j r r".to_string()));
}

#[test]
fn variants_are_distinct_and_non_empty() {
    let v = normalized_variants("Hugo, Victor");
    assert_eq!(v, vec!["hugo victor".to_string(), "victor hugo".to_string()]);
}

#[test]
fn alias_name_helpers() {
    assert_eq!(truncate("abcdef", 3), "abc\u{2026}");
    assert_eq!(truncate("abc", 3), "abc");
    assert_eq!(sanitize_dir_name("  a:b  "), "a_b");
    assert_eq!(sanitize_dir_name("   "), "");
    assert_eq!(alias_author_dir("  émile ", "zola"), "Zola, Emile");
    assert_eq!(alias_author_dir("", "zola"), "Zola");
    assert_eq!(pick_first_last("Hugo, Victor", "ignored"), ("Victor".to_string(), "Hugo".to_string()));
    assert_eq!(pick_first_last("Hugo", "Victor Marie Hugo"), ("Victor Marie".to_string(), "Hugo".to_string()));
    assert_eq!(pick_first_last("x", "Voltaire"), ("Voltaire".to_string(), String::new()));
    assert_eq!(invert_first_last("Victor Hugo"), Some("Hugo, Victor".to_string()));
    assert_eq!(invert_first_last("Voltaire"), None);
}

#[test]
fn query_swaps_last_first() {
    assert_eq!(normalize_query("Hugo, Victor [FR] (1802)"), "Victor Hugo");
    assert_eq!(normalize_query("Victor Hugo!"), "Victor Hugo");
}

#[test]
fn lowercase_applies_beyond_ascii() {
    assert_eq!(text(capitalize_words(&chars("ÉÉ ÀB"))), "Éé Àb");
}

#[test]
fn sanitize_component_is_idempotent_on_examples() {
    for s in ["con", " .a:b. ", "...", "Dumas, Alexandre", "lpt9.", "x?y"] {
        let once = sanitize_component(s);
        assert_eq!(sanitize_component(&once), once);
    }
}

#[test]
fn sanitize_component_start_and_reserved_names() {
    for s in [" .hidden", "..x", "\t y", "con.", " Nul "] {
        let r = sanitize_component(s);
        assert!(!r.starts_with('.') && !r.starts_with(char::is_whitespace));
    }
    assert_eq!(sanitize_component(" .COM5. "), "_COM5");
    assert_eq!(sanitize_component("aux"), "_aux");
}
