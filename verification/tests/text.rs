use typst_cnd::ancestry::SourceRange;
use typst_cnd::text::{
    extract_table_snippet, matching_paren_end, normalize_paragraph_key, paragraph_text_is_skipped,
    parse_caption, raw_math_from_span, raw_typst_from_label, raw_typst_from_span, should_skip_paragraph,
    skip_keys, table_fingerprint, trim,
};

#[test]
fn parse_caption_from_figure_block() {
    let text = r#"#figure(
  table(columns: 2),
  caption: [Paramètres nominaux de fonctionnement.],
) <tab-params>"#;
    let caption = parse_caption(text).unwrap();
    assert_eq!(caption.as_str(), "Paramètres nominaux de fonctionnement.");
}

#[test]
fn a_caption_needs_its_bracket_closed() {
    assert_eq!(parse_caption("#figure(caption: [open"), None);
    assert_eq!(parse_caption("#figure(table())"), None);
    assert_eq!(parse_caption("caption: x"), None);
    assert_eq!(parse_caption("caption:  [a [b] c]").as_deref(), Some("a [b] c"));
}

#[test]
fn paragraph_keys_drop_quotes_fold_spaces_and_lower_ascii() {
    assert_eq!(normalize_paragraph_key("  \u{201c}Hello\u{201d}   WORLD\n\tÉté "), "hello world Été");
    assert_eq!(normalize_paragraph_key("a\u{a0}b"), "ab");
    assert_eq!(normalize_paragraph_key("   "), "");
}

#[test]
fn skip_keys_are_keyed_and_kept_once() {
    let keys = skip_keys(&vec!["A  quote".to_string(), "a quote".to_string(), " ".to_string()]);
    assert_eq!(keys, vec!["a quote".to_string()]);
}

#[test]
fn a_key_is_skipped_when_a_skip_key_starts_with_it_or_it_starts_with_a_long_one() {
    let skip = vec!["first item of the list".to_string(), "short".to_string()];
    assert!(paragraph_text_is_skipped("first item", &skip));
    assert!(!paragraph_text_is_skipped("", &skip));
    // Ten bytes or more: a key that starts with a skip key is skipped too.
    assert!(paragraph_text_is_skipped("short and more", &skip));
    // Under ten bytes it is not.
    assert!(!paragraph_text_is_skipped("shorter", &skip));
    assert!(!paragraph_text_is_skipped("another paragraph", &skip));
}

#[test]
fn a_paragraph_inside_a_skipped_range_or_with_a_skipped_key_is_skipped() {
    let ranges = vec![SourceRange { file: 1, start: 10, end: 50 }];
    let texts = vec!["quoted words".to_string()];
    let inside = Some(SourceRange { file: 1, start: 12, end: 40 });
    let other_file = Some(SourceRange { file: 2, start: 12, end: 40 });
    assert!(should_skip_paragraph(inside, "anything", &ranges, &texts));
    assert!(!should_skip_paragraph(other_file, "anything", &ranges, &texts));
    assert!(should_skip_paragraph(None, "Quoted   Words", &ranges, &texts));
    assert!(!should_skip_paragraph(None, "fresh text", &ranges, &texts));
}

#[test]
fn matching_paren_end_counts_depth() {
    assert_eq!(matching_paren_end("table(a, (b), c) rest"), Some(16));
    assert_eq!(matching_paren_end("(é)"), Some(4));
    assert_eq!(matching_paren_end("no parens"), None);
    assert_eq!(matching_paren_end("(unclosed"), None);
    // A closer with nothing open ends the call at once.
    assert_eq!(matching_paren_end(")x(y)"), Some(1));
}

#[test]
fn extract_table_snippet_keeps_the_table_call() {
    let text = "#figure(\n  table(columns: 2, [a], [b]),\n  caption: [x],\n)";
    assert_eq!(extract_table_snippet(text), "table(columns: 2, [a], [b])");
    assert_eq!(extract_table_snippet("  plain text  "), "plain text");
    assert_eq!(extract_table_snippet("table(unclosed "), "table(unclosed");
}

#[test]
fn the_raw_source_of_a_labelled_figure_is_its_table_call() {
    let source = "#figure(table(columns: 1, [x]))\n\n#figure(\n  table(columns: 2),\n) <tab>\n";
    assert_eq!(raw_typst_from_label(source, "tab").as_deref(), Some("table(columns: 2)"));
    assert_eq!(raw_typst_from_label(source, "nope"), None);
    assert_eq!(raw_typst_from_label("text <tab>", "tab"), None);
}

#[test]
fn raw_source_from_a_span_is_clamped_and_reduced() {
    let text = "#table(columns: 2)  ";
    assert_eq!(raw_typst_from_span(text, 1, 100).as_deref(), Some("table(columns: 2)"));
    assert_eq!(raw_typst_from_span(text, 5, 5), None);
    assert_eq!(raw_typst_from_span(text, 50, 60), None);
    let math = "$ x^2 $ and é";
    assert_eq!(raw_math_from_span(math, 1, 6).as_deref(), Some("x^2"));
    assert_eq!(raw_math_from_span(math, 12, 99).as_deref(), Some("é"));
}

#[test]
fn table_fingerprints_join_words_with_bars() {
    assert_eq!(table_fingerprint("  a b\n c  "), "a|b|c");
    assert_eq!(table_fingerprint(""), "");
}

#[test]
fn trim_removes_surrounding_whitespace_only() {
    assert_eq!(trim("\u{3000} a b \n"), "a b");
    assert_eq!(trim("[x]"), "[x]");
}

#[test]
fn a_paragraph_key_is_its_own_key() {
    let key = normalize_paragraph_key("  \u{201c}Hello,\u{a0}  World\u{201d}\t\n «Again» ");
    assert_eq!(key, "hello, world again");
    assert_eq!(normalize_paragraph_key(&key), key);
}
