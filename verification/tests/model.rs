use typst_cnd::cli::{fallback_dir, Canonicalized, WorldError};
use typst_cnd::document::{
    datetime_to_doc_date, doc_date_from_info, doc_lang_from_info, doc_metadata_from_info, DateParts, DocumentInfo,
};
use typst_cnd::labels::LabelIndex;
use typst_cnd::model::{
    default_json_object, default_one, default_true, is_one, is_table_kind, is_true, placeholder_location,
    CndNode, FootnoteRef, ListItem, MetaValue, NodeLocation, NodeRef, ParagraphNode, TableKind, TermItem,
};
use typst_cnd::refs::write_span;
use typst_cnd::source::{built_at, built_at_now, source_hash, source_info};
use typst_cnd::table::{
    cells_from_cell_grid, cells_from_grid, content_kind_from_metadata, count_header_items, count_header_rows,
    enum_item, figure_number_fallback, list_item, CellGrid, GridCell, ItemSource, TableChildKind,
};
use typst_cnd::tree::{contains_node, edit_node, NodeEdit};

fn cell(text: &str, rowspan: usize, colspan: usize) -> Option<GridCell> {
    Some(GridCell { rowspan, colspan, text: text.to_string() })
}

fn item(text: &str, number: Option<usize>, children: Vec<ItemSource>) -> ItemSource {
    ItemSource { text: text.to_string(), number, children }
}

fn info() -> DocumentInfo {
    DocumentInfo {
        title: Some("Report".to_string()),
        authors: vec!["Ada".to_string(), "Grace".to_string()],
        date: Some(DateParts { year: Some(2024), month: Some(3), day: None }),
        keywords: vec!["cnd".to_string()],
        description: None,
        locale: Some("fr".to_string()),
    }
}

#[test]
fn placeholders_and_serialization_defaults() {
    assert_eq!(placeholder_location().page, 0);
    assert_eq!(default_one(), 1);
    assert!(is_one(&1) && !is_one(&2));
    assert!(default_true());
    assert!(is_true(&true) && !is_true(&false));
    assert!(is_table_kind(&TableKind::Table) && !is_table_kind(&TableKind::Grid));
    assert_eq!(default_json_object(), "{}");
    let r = NodeRef::new(5, Some("x".to_string()));
    assert_eq!((r.id, r.label.as_deref(), r.text_span), (5, Some("x"), None));
    let f = FootnoteRef { id: 1, label: None, span: None };
    assert_eq!(f.id, 1);
    let l = ListItem { text: "t".to_string(), number: None, children: vec![] };
    let t = TermItem { term: "a".to_string(), description: "b".to_string() };
    assert_eq!((l.text.as_str(), t.term.as_str(), t.description.as_str()), ("t", "a", "b"));
}

#[test]
fn grid_cells_are_read_in_order_with_their_positions() {
    let grid = CellGrid {
        cols: 2,
        entries: vec![cell("a", 1, 2), None, cell("b", 1, 1), cell("c", 2, 1)],
    };
    let cells = cells_from_cell_grid(Some(&grid));
    assert_eq!(cells.len(), 3);
    assert_eq!((cells[0].row, cells[0].col, cells[0].colspan, cells[0].text.as_str()), (0, 0, 2, "a"));
    assert_eq!((cells[1].row, cells[1].col), (1, 0));
    assert_eq!((cells[2].row, cells[2].col, cells[2].rowspan), (1, 1, 2));
    assert!(cells.iter().all(|c| !c.is_header));
    assert!(cells_from_cell_grid(None).is_empty());
    assert!(cells_from_cell_grid(Some(&CellGrid { cols: 0, entries: vec![cell("x", 1, 1)] })).is_empty());

    let cells = cells_from_grid(Some(&grid), 1);
    assert!(cells[0].is_header);
    assert!(!cells[1].is_header && !cells[2].is_header);
}

#[test]
fn every_header_counts_one_row() {
    assert_eq!(count_header_items(&vec![true, true, false]), 1);
    assert_eq!(count_header_items(&vec![]), 1);
    let children = vec![
        TableChildKind::Header(vec![true, true]),
        TableChildKind::Other,
        TableChildKind::Header(vec![]),
    ];
    assert_eq!(count_header_rows(&children), 2);
    assert_eq!(count_header_rows(&vec![TableChildKind::Other]), 0);
}

#[test]
fn a_table_content_kind_comes_from_its_metadata_text() {
    let metadata = vec![
        ("a".to_string(), MetaValue::Int(1)),
        ("content_kind".to_string(), MetaValue::Str("data".to_string())),
    ];
    assert_eq!(content_kind_from_metadata(&metadata).as_deref(), Some("data"));
    let metadata = vec![("content_kind".to_string(), MetaValue::Bool(true))];
    assert_eq!(content_kind_from_metadata(&metadata), None);
    assert_eq!(content_kind_from_metadata(&vec![]), None);
}

#[test]
fn a_table_figure_without_a_number_is_numbered_by_position() {
    assert_eq!(figure_number_fallback(Some(2)).as_deref(), Some("Tableau 3"));
    assert_eq!(figure_number_fallback(Some(0)).as_deref(), Some("Tableau 1"));
    assert_eq!(figure_number_fallback(None), None);
}

#[test]
fn list_items_keep_their_text_and_numbers() {
    let src = item("a", None, vec![item("a.1", None, vec![]), item("a.2", Some(7), vec![])]);
    let bullet = list_item(&src);
    assert_eq!(bullet.text, "a");
    assert_eq!(bullet.number, None);
    assert_eq!(bullet.children.len(), 2);
    assert_eq!(bullet.children[1].number, None);
    let numbered = enum_item(&src, 4);
    assert_eq!(numbered.number, Some(5));
    assert_eq!(numbered.children[0].number, Some(1));
    assert_eq!(numbered.children[1].number, Some(7));
}

#[test]
fn document_metadata_comes_from_what_the_document_states() {
    let d = datetime_to_doc_date(&DateParts { year: Some(2024), month: Some(3), day: Some(9) });
    assert_eq!((d.year, d.month, d.day), (2024, Some(3), Some(9)));
    let i = info();
    let date = doc_date_from_info(&i).unwrap();
    assert_eq!((date.year, date.month, date.day), (2024, Some(3), None));
    assert_eq!(doc_lang_from_info(&i).as_deref(), Some("fr"));
    let m = doc_metadata_from_info(&i);
    assert_eq!(m.title, "Report");
    assert_eq!(m.authors, vec!["Ada", "Grace"]);
    assert_eq!(m.keywords, vec!["cnd"]);
    assert_eq!(m.description, None);
    let empty = DocumentInfo { title: None, authors: vec![], date: None, keywords: vec![], description: None, locale: None };
    let m = doc_metadata_from_info(&empty);
    assert!(m.date.is_none() && m.lang.is_none());
}

#[test]
fn a_source_is_described_by_its_sha256() {
    assert_eq!(source_hash(""), "sha256:e3b0c44298fc1c149afbf4c8996fb92427ae41e4649b934ca495991b7852b855");
    assert_eq!(source_hash("abc"), "sha256:ba7816bf8f01cfea414140de5dae2223b00361a396177a9cb410ff61f20015ad");
    let s = source_info("abc", "main.typ");
    assert_eq!(s.type_, "typst");
    assert_eq!(s.hash, source_hash("abc"));
    assert_eq!(s.uri.as_deref(), Some("main.typ"));
}

#[test]
fn the_build_time_falls_back_to_the_epoch() {
    assert_eq!(built_at(Some("2024-01-02T03:04:05Z".to_string())), "2024-01-02T03:04:05Z");
    assert_eq!(built_at(None), "1970-01-01T00:00:00Z");
    // The current time, in UTC, as RFC 3339 text.
    let now = built_at_now();
    assert!(now.len() >= 20 && now.as_bytes()[10] == b'T' && now.ends_with('Z'), "{now}");
    assert!(now.as_str() > "2020");
}

#[test]
fn world_errors_read_as_messages() {
    assert_eq!(WorldError::InputNotFound("a.typ".to_string()).message(), "input file not found (searched at a.typ)");
    assert_eq!(WorldError::InvalidTimestamp.message(), "creation timestamp out of range");
    assert_eq!(
        WorldError::FallbackDirNotADirectory("f".to_string()).message(),
        "fallback directory is not a directory (f)"
    );
    assert_eq!(WorldError::Inputs("bad".to_string()).message(), "bad");
}

#[test]
fn a_fallback_dir_must_be_an_existing_directory() {
    let found = Canonicalized::Found { path: "/abs/dir".to_string(), is_dir: true };
    assert_eq!(fallback_dir("dir", found).ok().as_deref(), Some("/abs/dir"));
    let file = Canonicalized::Found { path: "/abs/file".to_string(), is_dir: false };
    assert!(matches!(fallback_dir("file", file), Err(WorldError::FallbackDirNotADirectory(d)) if d == "file"));
    assert!(matches!(fallback_dir("gone", Canonicalized::NotFound), Err(WorldError::FallbackDirNotFound(d)) if d == "gone"));
    let failed = Canonicalized::Failed("denied".to_string());
    assert!(matches!(fallback_dir("x", failed), Err(WorldError::Io(m)) if m == "denied"));
    assert_eq!(
        WorldError::FallbackDirNotFound("gone".to_string()).message(),
        "fallback directory not found (searched at gone)"
    );
}

#[test]
fn the_label_index_keeps_the_last_id_of_a_label() {
    let mut index = LabelIndex::new();
    assert_eq!(index.get("a"), None);
    index.insert("a".to_string(), 1);
    index.insert("b".to_string(), 2);
    index.insert("a".to_string(), 3);
    assert_eq!(index.get("a"), Some(3));
    assert!(index.contains("b") && !index.contains("c"));
    index.clear();
    assert!(!index.contains("a"));
}

#[test]
fn spans_are_written_as_two_offsets() {
    assert_eq!(write_span(Some((3, 8))), Some(vec![3, 8]));
    assert_eq!(write_span(None), None);
}

#[test]
fn an_edit_reaches_the_first_node_with_the_id() {
    let p = |id: u128| CndNode::Paragraph(ParagraphNode::new(id, "t".to_string(), placeholder_location()));
    let mut nodes = vec![p(1), p(2)];
    assert!(contains_node(&nodes, 2));
    assert!(!contains_node(&nodes, 3));
    assert!(edit_node(&mut nodes, 2, NodeEdit::SetLabel("two".to_string())).is_none());
    match &nodes[1] {
        CndNode::Paragraph(n) => assert_eq!(n.base.label.as_deref(), Some("two")),
        _ => panic!("a paragraph"),
    }
    assert!(matches!(edit_node(&mut nodes, 9, NodeEdit::SetLocation(NodeLocation { page: 2 })), Some(NodeEdit::SetLocation(_))));
    let r = NodeRef::new(1, None);
    assert!(edit_node(&mut nodes, 2, NodeEdit::AddRef(r)).is_none());
    assert!(edit_node(&mut nodes, 2, NodeEdit::AddRef(NodeRef::new(1, Some("again".to_string())))).is_none());
    match &nodes[1] {
        CndNode::Paragraph(n) => assert_eq!(n.base.refs_to.len(), 1, "one edge per target"),
        _ => panic!("a paragraph"),
    }
}
