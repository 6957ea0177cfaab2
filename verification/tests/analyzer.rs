use docgarden::analyzer::{
    analyze_surface_spans, analyze_token, is_separator, is_stopword, normalize_path,
    normalize_text, split_camel_case,
};

#[test]
fn normalize_text_stems_morphological_variants() {
    assert_eq!(
        normalize_text("plans reviews analyzed"),
        vec!["plan", "review", "analyz"]
    );
}

#[test]
fn normalize_path_stems_path_segments() {
    assert_eq!(
        normalize_path("docs/the-active-plans/scoring-guide.md"),
        vec!["doc", "activ", "plan", "score", "guid"]
    );
}

#[test]
fn analyze_token_filters_empty_and_stopword_input() {
    assert_eq!(analyze_token(""), Vec::<String>::new());
    assert_eq!(analyze_token("the"), Vec::<String>::new());
    assert_eq!(analyze_token("is"), Vec::<String>::new());
}

#[test]
fn analyze_token_filters_stopwords_before_stemming() {
    assert_eq!(analyze_token("was"), Vec::<String>::new());
}

#[test]
fn analyze_token_lowercases_and_stems_mixed_case_input() {
    assert_eq!(analyze_token("Reviews"), vec!["review"]);
}

#[test]
fn normalize_text_preserves_token_ordering_and_empty_input() {
    assert_eq!(normalize_text("Reviews plans"), vec!["review", "plan"]);
    assert!(normalize_text("").is_empty());
}

#[test]
fn analyzer_normalize_text_lowercases_splits_and_filters_stopwords() {
    let toks = normalize_text("Hello, The World!");
    assert_eq!(toks, vec!["hello", "world"]);
}

#[test]
fn analyzer_normalize_path_strips_extension_and_splits_separators() {
    let toks = normalize_path("docs/the-active-plan/my_guide.md");
    assert_eq!(toks, vec!["doc", "activ", "plan", "my", "guid"]);
}

#[test]
fn apostrophes_are_not_separators_for_text_or_paths() {
    assert_eq!(normalize_text("you're").len(), 1);
    assert_eq!(normalize_path("you're.md").len(), 1);
    assert_eq!(normalize_path("docs/you're.md"), vec!["doc", "you'r"]);
}

#[test]
fn normalize_text_splits_camel_case_boundaries() {
    assert_eq!(normalize_text("ExecPlan"), vec!["exec", "plan"]);
    assert_eq!(normalize_text("XMLParser"), vec!["xml", "parser"]);
    assert_eq!(normalize_text("PowerShot"), vec!["power", "shot"]);
}

#[test]
fn normalize_text_preserves_digit_identifier_shapes() {
    let cases = [
        ("BM25F", "bm25f"),
        ("v1", "v1"),
        ("f32", "f32"),
        ("R2D2", "r2d2"),
        ("SD500", "sd500"),
        ("ADR0004", "adr0004"),
    ];
    for (token, expected_stem) in cases {
        let result = normalize_text(token);
        assert_eq!(result.len(), 1, "{token} should stay one analyzed token");
        assert_eq!(result, vec![expected_stem], "{token} stem mismatch");
    }
}

#[test]
fn analyze_token_strips_trailing_possessives() {
    assert_eq!(analyze_token("Jim's"), vec!["jim"]);
    assert_eq!(normalize_text("Jim's notebook"), vec!["jim", "notebook"]);
    assert_eq!(analyze_token("O'Reilly's"), analyze_token("O'Reilly"));
    assert_eq!(analyze_token("dogs'"), analyze_token("dog"));
    assert_eq!(
        normalize_text("dogs' bowls")[0],
        normalize_text("dog bowls")[0]
    );
    assert_eq!(analyze_token("'s"), Vec::<String>::new());
    assert_eq!(analyze_token("s'"), Vec::<String>::new());
}

#[test]
fn analyze_token_preserves_internal_apostrophes() {
    assert_eq!(analyze_token("you're"), vec!["you'r"]);
    assert_eq!(analyze_token("O'Reilly"), vec!["o'reilli"]);
    assert_eq!(normalize_text("O'Reilly's"), normalize_text("O'Reilly"));
}

#[test]
fn compound_dictionary_expands_curated_entries() {
    assert_eq!(normalize_text("execplan"), vec!["exec", "plan"]);
    let path_terms = normalize_path("docs/planner-execplan.md");
    assert!(path_terms.contains(&"exec".to_string()));
    assert!(path_terms.contains(&"plan".to_string()));
}

#[test]
fn analyze_surface_spans_splits_camel_case_with_terms() {
    let spans = analyze_surface_spans("ExecPlan");
    assert_eq!(spans.len(), 2);
    assert_eq!(spans[0].surface, "Exec");
    assert_eq!(spans[0].terms, vec!["exec"]);
    assert_eq!(spans[1].surface, "Plan");
    assert_eq!(spans[1].terms, vec!["plan"]);
}

#[test]
fn analyze_surface_spans_keeps_possessive_suffix_termless() {
    let spans = analyze_surface_spans("Jim's");
    assert_eq!(spans.len(), 2);
    assert_eq!(spans[0].surface, "Jim");
    assert_eq!(spans[0].terms, vec!["jim"]);
    assert_eq!(spans[1].surface, "'s");
    assert!(spans[1].terms.is_empty());
}

#[test]
fn analyze_surface_spans_splits_compound_surface_boundaries() {
    let spans = analyze_surface_spans("execplan");
    assert_eq!(spans.len(), 2);
    assert_eq!(spans[0].surface, "exec");
    assert_eq!(spans[0].terms, vec!["exec"]);
    assert_eq!(spans[1].surface, "plan");
    assert_eq!(spans[1].terms, vec!["plan"]);
}

#[test]
fn analyze_surface_spans_emits_no_terms_for_stopword_and_suffix() {
    let spans = analyze_surface_spans("the's");
    assert_eq!(spans.len(), 2);
    assert_eq!(spans[0].surface, "the");
    assert!(spans[0].terms.is_empty());
    assert_eq!(spans[1].surface, "'s");
    assert!(spans[1].terms.is_empty());

    let bare_plural = analyze_surface_spans("s'");
    assert_eq!(bare_plural.len(), 1);
    assert_eq!(bare_plural[0].surface, "s'");
    assert!(bare_plural[0].terms.is_empty());
    assert!(normalize_text("s'").is_empty());
}

#[test]
fn camel_case_parts_join_back_to_the_token() {
    for token in ["XMLParser", "ExecPlan", "BM25F", "aB", "ABc", "already"] {
        let parts = split_camel_case(token);
        assert!(parts.iter().all(|p| !p.is_empty()));
        assert_eq!(parts.concat(), token);
    }
    assert_eq!(split_camel_case("XMLParser"), vec!["XML", "Parser"]);
    assert!(split_camel_case("").is_empty());
}

#[test]
fn surface_spans_join_back_to_the_token() {
    for token in ["Jim's", "ExecPlan's", "execPlan", "EXECPLAN", "dogs'", "O'Reilly"] {
        let spans = analyze_surface_spans(token);
        let joined: String = spans.iter().map(|s| s.surface.as_str()).collect();
        assert_eq!(joined, token);
    }
}

#[test]
fn separators_are_whitespace_and_punctuation_but_not_apostrophes() {
    assert!(is_separator(' '));
    assert!(is_separator('\n'));
    assert!(is_separator('-'));
    assert!(is_separator('/'));
    assert!(!is_separator('\''));
    assert!(!is_separator('a'));
    assert!(!is_separator('7'));
}

#[test]
fn stopword_list_holds_the_english_stop_words() {
    for word in ["a", "the", "with", "was", "into"] {
        assert!(is_stopword(word));
    }
    for word in ["plan", "review", "The"] {
        assert!(!is_stopword(word));
    }
}
