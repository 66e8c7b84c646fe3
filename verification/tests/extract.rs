use typst_cnd::extract::{
    citation_form_str, extract_with_markers, link_dest, CitationForm, ExtractedMarker, LinkDest, LinkTarget,
    MarkerKind, TagKind, WalkEvent,
};

fn text(t: &str) -> WalkEvent {
    WalkEvent::Text(t.to_string())
}

fn open(kind: TagKind, loc: u128) -> WalkEvent {
    WalkEvent::Start { kind, loc: Some(loc) }
}

fn span(m: &ExtractedMarker) -> (i64, i64) {
    (m.start, m.end)
}

#[test]
fn markers_get_code_point_spans_in_the_flat_text() {
    let events = vec![
        WalkEvent::Linebreak,
        text("See "),
        open(TagKind::Ref("sec".to_string()), 1),
        open(TagKind::LinkMarker, 2),
        text("Section 1"),
        WalkEvent::End { loc: 2 },
        text(" and"),
        open(TagKind::Cite, 3),
        text("[1]"),
        WalkEvent::End { loc: 3 },
        WalkEvent::Linebreak,
        WalkEvent::Linebreak,
        open(TagKind::Link(LinkTarget::Url("https://example.org".to_string())), 4),
        text("é"),
        WalkEvent::Start { kind: TagKind::Footnote, loc: None },
    ];
    let (flat, markers) = extract_with_markers(events);
    assert_eq!(flat, "See Section 1 and[1] é");
    assert_eq!(markers.len(), 3);
    assert!(matches!(&markers[0].kind, MarkerKind::Ref(l) if l == "sec"));
    assert_eq!(span(&markers[0]), (4, 13));
    assert!(matches!(markers[1].kind, MarkerKind::Cite(3)));
    assert_eq!(span(&markers[1]), (17, 20));
    // A link never closed in the node gets an empty span at its start.
    assert!(matches!(&markers[2].kind, MarkerKind::Link(LinkDest::Url(u)) if u == "https://example.org"));
    assert_eq!(span(&markers[2]), (21, 21));
}

#[test]
fn footnotes_and_labelled_links_bracket_their_rendered_text() {
    let events = vec![
        open(TagKind::Footnote, 7),
        text("1"),
        WalkEvent::End { loc: 7 },
        open(TagKind::Link(LinkTarget::Label("fig".to_string())), 8),
        text("Figure"),
        WalkEvent::End { loc: 8 },
        open(TagKind::Link(LinkTarget::Position), 9),
        text("p. 3"),
        WalkEvent::End { loc: 9 },
        open(TagKind::Other, 10),
        WalkEvent::End { loc: 10 },
    ];
    let (flat, markers) = extract_with_markers(events);
    assert_eq!(flat, "1Figurep. 3");
    assert_eq!(markers.len(), 2);
    assert!(matches!(markers[0].kind, MarkerKind::Footnote(7)));
    assert_eq!(span(&markers[0]), (0, 1));
    assert!(matches!(&markers[1].kind, MarkerKind::Link(LinkDest::Label(l)) if l == "fig"));
    assert_eq!(span(&markers[1]), (1, 7));
}

#[test]
fn a_reference_without_its_link_marker_gives_no_marker() {
    let events = vec![open(TagKind::Ref("x".to_string()), 1), text("?"), open(TagKind::LinkMarker, 2), WalkEvent::End { loc: 2 }];
    let (flat, markers) = extract_with_markers(events);
    assert_eq!(flat, "?");
    assert!(markers.is_empty());
}

#[test]
fn link_targets_narrow_to_durable_destinations() {
    assert!(matches!(link_dest(&LinkTarget::Url("u".to_string())), Some(LinkDest::Url(u)) if u == "u"));
    assert!(matches!(link_dest(&LinkTarget::Label("l".to_string())), Some(LinkDest::Label(l)) if l == "l"));
    assert!(matches!(link_dest(&LinkTarget::Location(5)), Some(LinkDest::Location(5))));
    assert!(link_dest(&LinkTarget::Position).is_none());
}

#[test]
fn citation_forms_are_named_in_lower_case() {
    assert_eq!(citation_form_str(None).as_deref(), Some("none"));
    assert_eq!(citation_form_str(Some(CitationForm::Normal)).as_deref(), Some("normal"));
    assert_eq!(citation_form_str(Some(CitationForm::Prose)).as_deref(), Some("prose"));
    assert_eq!(citation_form_str(Some(CitationForm::Full)).as_deref(), Some("full"));
    assert_eq!(citation_form_str(Some(CitationForm::Author)).as_deref(), Some("author"));
    assert_eq!(citation_form_str(Some(CitationForm::Year)).as_deref(), Some("year"));
}
