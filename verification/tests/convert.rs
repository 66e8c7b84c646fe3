use rustc_hash::FxHashMap;
use typst_cnd::convert::{
    apply_metadata, collect_footnote_locs, collect_ref_targets, finalize_headings, find_record, heading_path,
    heading_segment, make_record, open_heading, push_node, CiteMarker, ConvertContext, HeadingFrame,
    LocationAssigner, NodeRecord,
};
use typst_cnd::extract::{ExtractedMarker, MarkerKind};
use typst_cnd::model::{placeholder_location, CndNode, HeadingNode, MetaValue, ParagraphNode};
use typst_cnd::pools::{resolve_footnotes, FootnoteFact};
use typst_cnd::refs::{rebuild_label_index, resolve_label, resolve_refs, LabelTarget, RefSourceKind};

fn record(location: Option<u128>, label: Option<&str>) -> NodeRecord {
    make_record(location, label.map(String::from), &vec![], &vec![], vec![], &vec![], vec![])
}

fn paragraph(id: u128, text: &str) -> CndNode {
    CndNode::Paragraph(ParagraphNode::new(id, text.to_string(), placeholder_location()))
}

fn frame(id: u128, level: i32, text: &str) -> HeadingFrame {
    let node = HeadingNode::new(id, level, String::new(), text.to_string(), vec![text.to_string()], placeholder_location());
    HeadingFrame { level, path: vec![text.to_string()], node }
}

fn heading(node: &CndNode) -> &HeadingNode {
    match node {
        CndNode::Heading(h) => h,
        _ => panic!("a heading"),
    }
}

fn para(node: &CndNode) -> &ParagraphNode {
    match node {
        CndNode::Paragraph(p) => p,
        _ => panic!("a paragraph"),
    }
}

#[test]
fn headings_take_the_nodes_that_follow_them() {
    let mut ctx = ConvertContext::new();
    let mut stack: Vec<HeadingFrame> = Vec::new();
    push_node(paragraph(1, "before"), &mut ctx, &mut stack);
    open_heading(frame(10, 1, "A"), &mut ctx, &mut stack);
    push_node(paragraph(2, "in A"), &mut ctx, &mut stack);
    open_heading(frame(11, 2, "A.1"), &mut ctx, &mut stack);
    push_node(paragraph(3, "in A.1"), &mut ctx, &mut stack);
    open_heading(frame(12, 1, "B"), &mut ctx, &mut stack);
    push_node(paragraph(4, "in B"), &mut ctx, &mut stack);
    finalize_headings(&mut ctx, &mut stack);

    assert!(stack.is_empty());
    assert_eq!(ctx.roots.len(), 3);
    assert_eq!(para(&ctx.roots[0]).text, "before");
    let a = heading(&ctx.roots[1]);
    assert_eq!(a.base.id, 10);
    assert_eq!(a.children.len(), 2);
    assert_eq!(para(&a.children[0]).base.id, 2);
    let a1 = heading(&a.children[1]);
    assert_eq!(a1.base.id, 11);
    assert_eq!(para(&a1.children[0]).base.id, 3);
    let b = heading(&ctx.roots[2]);
    assert_eq!(b.base.id, 12);
    assert_eq!(para(&b.children[0]).base.id, 4);
}

#[test]
fn a_heading_path_runs_from_the_outermost_open_heading() {
    assert_eq!(heading_segment("1.2", "Scope"), "1.2 Scope");
    assert_eq!(heading_segment("", "Scope"), "Scope");
    let stack = vec![frame(1, 1, "1 Intro"), frame(2, 2, "1.1 Goals")];
    assert_eq!(heading_path(&stack, "1.1.1 Detail".to_string()), vec!["1 Intro", "1.1 Goals", "1.1.1 Detail"]);
    assert_eq!(heading_path(&vec![], "Top".to_string()), vec!["Top"]);
}

#[test]
fn referenced_labels_come_out_once_and_sorted() {
    let labels = vec!["zeta".to_string(), "alpha".to_string(), "zeta".to_string(), "mid".to_string()];
    assert_eq!(collect_ref_targets(&labels), vec!["alpha", "mid", "zeta"]);
}

#[test]
fn footnote_markers_come_out_once_in_order() {
    assert_eq!(collect_footnote_locs(&vec![5, 3, 5, 9, 3]), vec![5, 3, 9]);
    assert!(collect_footnote_locs(&vec![]).is_empty());
}

#[test]
fn a_record_takes_the_spans_of_its_markers() {
    let markers = vec![
        ExtractedMarker { kind: MarkerKind::Cite(7), start: 2, end: 5 },
        ExtractedMarker { kind: MarkerKind::Footnote(8), start: 6, end: 7 },
        ExtractedMarker { kind: MarkerKind::Ref("sec".to_string()), start: 9, end: 12 },
        ExtractedMarker { kind: MarkerKind::Cite(7), start: 20, end: 22 },
    ];
    let cites = vec![
        CiteMarker { key: "knuth".to_string(), loc: 7, form: None, supplement: None, span: None },
        CiteMarker { key: "other".to_string(), loc: 99, form: None, supplement: None, span: Some((0, 1)) },
    ];
    let r = make_record(
        Some(40),
        Some("p".to_string()),
        &vec!["b".to_string(), "a".to_string()],
        &vec![8, 8, 9],
        cites,
        &markers,
        vec![("k".to_string(), MetaValue::Bool(true))],
    );
    assert_eq!(r.location, Some(40));
    assert_eq!(r.label.as_deref(), Some("p"));
    assert_eq!(r.ref_targets, vec!["a", "b"]);
    assert_eq!(r.footnote_locs, vec![(8, Some((6, 7))), (9, None)]);
    assert_eq!(r.cite_markers[0].span, Some((2, 5)));
    assert_eq!(r.cite_markers[1].span, None);
    assert_eq!(r.ref_markers, vec![("sec".to_string(), (9, 12))]);
    assert_eq!(r.state_metadata.len(), 1);
}

#[test]
fn registering_leads_labels_and_locations_to_the_node() {
    let mut ctx = ConvertContext::new();
    ctx.register(1, record(Some(100), Some("intro")));
    ctx.register(2, record(None, None));
    ctx.register(1, record(Some(101), None));
    assert_eq!(ctx.records.len(), 2);
    assert_eq!(find_record(&ctx.records, 1).map(|r| r.location), Some(Some(101)));
    assert_eq!(find_record(&ctx.records, 2).map(|r| r.location), Some(None));
    assert!(find_record(&ctx.records, 3).is_none());
    assert_eq!(ctx.label_to_id.get("intro"), Some(1));
    assert_eq!(ctx.location_to_id.get(&100), Some(&1));
    assert_eq!(ctx.location_to_id.get(&101), Some(&1));
}

#[test]
fn recorded_labels_and_metadata_reach_the_tree() {
    let mut ctx = ConvertContext::new();
    let mut stack: Vec<HeadingFrame> = Vec::new();
    open_heading(frame(10, 1, "A"), &mut ctx, &mut stack);
    push_node(paragraph(2, "text"), &mut ctx, &mut stack);
    finalize_headings(&mut ctx, &mut stack);
    let mut r = record(Some(5), Some("par"));
    r.state_metadata = vec![("k".to_string(), MetaValue::Int(3))];
    ctx.register(2, r);
    apply_metadata(&mut ctx);
    let p = para(&heading(&ctx.roots[0]).children[0]);
    assert_eq!(p.base.label.as_deref(), Some("par"));
    assert_eq!(p.base.state_metadata.len(), 1);
    assert!(heading(&ctx.roots[0]).base.label.is_none());
}

#[test]
fn nodes_get_the_page_their_location_is_on() {
    let mut nodes = vec![paragraph(1, "a"), paragraph(2, "b"), paragraph(3, "c")];
    let mut pages = rustc_hash::FxHashMap::default();
    pages.insert(100u128, 4usize);
    let mut records = FxHashMap::default();
    records.insert(1, record(Some(100), None));
    records.insert(2, record(Some(200), None));
    records.insert(3, record(None, None));
    LocationAssigner::new(pages, records).assign_all(&mut nodes);
    assert_eq!(para(&nodes[0]).base.location.page, 4);
    assert_eq!(para(&nodes[1]).base.location.page, 1);
    assert_eq!(para(&nodes[2]).base.location.page, 0);
}

#[test]
fn a_reference_becomes_one_edge_with_the_marker_span() {
    let mut ctx = ConvertContext::new();
    let mut stack: Vec<HeadingFrame> = Vec::new();
    open_heading(frame(10, 1, "A"), &mut ctx, &mut stack);
    push_node(paragraph(2, "see A"), &mut ctx, &mut stack);
    finalize_headings(&mut ctx, &mut stack);
    ctx.register(10, record(Some(100), Some("sec")));
    let markers = vec![ExtractedMarker { kind: MarkerKind::Ref("sec".to_string()), start: 4, end: 5 }];
    let r = make_record(Some(101), None, &vec!["sec".to_string()], &vec![], vec![], &markers, vec![]);
    ctx.register(2, r);

    resolve_refs(&mut ctx, &vec![], &vec![]);

    let p = para(&heading(&ctx.roots[0]).children[0]);
    assert_eq!(p.base.refs_to.len(), 1);
    assert_eq!(p.base.refs_to[0].id, 10);
    assert_eq!(p.base.refs_to[0].label.as_deref(), Some("sec"));
    assert_eq!(p.base.refs_to[0].text_span, Some(vec![4, 5]));
    assert!(heading(&ctx.roots[0]).base.refs_to.is_empty());
}

#[test]
fn a_reference_found_only_in_the_source_reaches_its_paragraph() {
    let mut ctx = ConvertContext::new();
    ctx.roots.push(paragraph(1, "first"));
    ctx.roots.push(paragraph(2, "second"));
    ctx.register(1, record(Some(100), Some("target")));
    ctx.register(2, record(Some(101), None));
    let content = vec![(RefSourceKind::Paragraph, 1usize, "target".to_string())];
    resolve_refs(&mut ctx, &vec![], &content);
    let p = para(&ctx.roots[1]);
    assert_eq!(p.base.refs_to.len(), 1);
    assert_eq!(p.base.refs_to[0].id, 1);
    assert_eq!(p.base.refs_to[0].text_span, None);
}

#[test]
fn labels_resolve_through_the_index_then_the_introspector() {
    let mut ctx = ConvertContext::new();
    ctx.register(1, record(Some(100), Some("known")));
    ctx.register(2, record(Some(200), None));
    let targets = vec![
        LabelTarget { label: "by-loc".to_string(), found: true, location: Some(200), is_figure: false, figure_locations: vec![] },
        LabelTarget { label: "ambiguous".to_string(), found: false, location: Some(200), is_figure: false, figure_locations: vec![] },
        LabelTarget { label: "fig".to_string(), found: true, location: None, is_figure: true, figure_locations: vec![300, 100] },
    ];
    assert_eq!(resolve_label("known", &ctx, &targets), Some(1));
    assert_eq!(resolve_label("by-loc", &ctx, &targets), Some(2));
    assert_eq!(resolve_label("ambiguous", &ctx, &targets), None);
    assert_eq!(resolve_label("fig", &ctx, &targets), Some(1));
    assert_eq!(resolve_label("unknown", &ctx, &targets), None);
}

#[test]
fn footnotes_pool_once_and_every_marker_gets_an_edge() {
    let mut ctx = ConvertContext::new();
    ctx.roots.push(paragraph(1, "a1 b2"));
    ctx.roots.push(paragraph(2, "again1"));
    let facts = vec![
        FootnoteFact { is_ref: false, location: Some(10), declaration: Some(10), label: "1".to_string(), text: "first".to_string() },
        FootnoteFact { is_ref: false, location: Some(20), declaration: Some(20), label: "2".to_string(), text: "second".to_string() },
        FootnoteFact { is_ref: true, location: Some(11), declaration: Some(10), label: "1".to_string(), text: String::new() },
    ];
    let mut r1 = record(Some(100), None);
    r1.footnote_locs = vec![(10, Some((1, 2))), (20, Some((4, 5)))];
    let mut r2 = record(Some(101), None);
    r2.footnote_locs = vec![(11, None), (10, None)];
    ctx.register(1, r1);
    ctx.register(2, r2);

    resolve_footnotes(&mut ctx, &facts);

    assert_eq!(ctx.footnotes.len(), 2);
    assert_eq!(ctx.footnotes[0].label, "1");
    assert_eq!(ctx.footnotes[0].text, "first");
    assert_eq!(ctx.footnotes[1].label, "2");
    let first = ctx.footnotes[0].id;
    // Fresh ids are version 4 UUIDs of the RFC 4122 variant.
    assert_eq!((first >> 76) & 0xf, 4);
    assert_eq!((first >> 62) & 0x3, 2);
    assert_ne!(ctx.footnotes[0].id, ctx.footnotes[1].id);
    assert_eq!(ctx.footnote_loc_to_id.get(&11), Some(&first));
    let p1 = para(&ctx.roots[0]);
    assert_eq!(p1.base.footnotes.len(), 2);
    assert_eq!(p1.base.footnotes[0].id, first);
    assert_eq!(p1.base.footnotes[0].span, Some(vec![1, 2]));
    assert_eq!(p1.base.footnotes[1].label.as_deref(), Some("2"));
    // The re-reference and the declaration lead to one entry: one edge.
    let p2 = para(&ctx.roots[1]);
    assert_eq!(p2.base.footnotes.len(), 1);
    assert_eq!(p2.base.footnotes[0].id, first);
}

#[test]
fn the_rebuilt_label_index_follows_records_then_labelled_elements() {
    let mut ctx = ConvertContext::new();
    ctx.register(1, record(Some(100), Some("a")));
    ctx.register(2, record(Some(200), None));
    ctx.label_to_id.insert("stale".to_string(), 9);
    let targets = vec![LabelTarget {
        label: "b".to_string(),
        found: true,
        location: Some(200),
        is_figure: false,
        figure_locations: vec![],
    }];
    rebuild_label_index(&mut ctx, &targets, &vec!["b".to_string(), "nowhere".to_string()]);
    assert_eq!(ctx.label_to_id.get("a"), Some(1));
    assert_eq!(ctx.label_to_id.get("b"), Some(2));
    assert_eq!(ctx.label_to_id.get("stale"), None);
    assert_eq!(ctx.label_to_id.get("nowhere"), None);
    assert_eq!(find_record(&ctx.records, 2).and_then(|r| r.label.clone()), Some("b".to_string()));
    assert_eq!(find_record(&ctx.records, 1).and_then(|r| r.label.clone()), Some("a".to_string()));
}
