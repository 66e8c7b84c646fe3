use typst_cnd::ancestry::{
    content_range, contains, covering_par, is_emitted_container, is_nested_list_or_enum, is_strictly_nested, Ancestry, ElemKind,
    FrameEvent, Open, SourceRange,
};

fn range(start: usize, end: usize) -> Option<SourceRange> {
    Some(SourceRange { file: 0, start, end })
}

fn start(location: u128, kind: ElemKind, range: Option<SourceRange>) -> FrameEvent {
    FrameEvent::Start { location, kind, range }
}

fn end(location: u128) -> FrameEvent {
    FrameEvent::End { location }
}

#[test]
fn a_paragraph_written_inside_another_is_covered_by_it() {
    let events = vec![
        start(1, ElemKind::Paragraph, range(0, 100)),
        FrameEvent::Text,
        start(2, ElemKind::Paragraph, range(10, 20)),
        FrameEvent::Text,
        end(2),
        end(1),
    ];
    let a = Ancestry::from_events(&events);
    assert_eq!(a.covering_par(2), Some(1));
    assert_eq!(a.covering_par(1), None);
    assert!(!a.is_artifact(1) && !a.is_artifact(2));
}

#[test]
fn a_float_landing_inside_a_paragraph_is_not_covered() {
    let events = vec![
        start(1, ElemKind::Paragraph, range(60, 100)),
        start(2, ElemKind::Paragraph, range(10, 20)),
        end(2),
        end(1),
        start(3, ElemKind::Paragraph, None),
        start(4, ElemKind::Paragraph, range(10, 20)),
        end(4),
        end(3),
    ];
    let a = Ancestry::from_events(&events);
    assert_eq!(a.covering_par(2), None);
    assert_eq!(a.covering_par(4), None);
}

#[test]
fn only_the_nearest_open_paragraph_can_cover() {
    let events = vec![
        start(1, ElemKind::Paragraph, range(0, 100)),
        start(2, ElemKind::Other, None),
        start(3, ElemKind::Paragraph, range(50, 60)),
        start(4, ElemKind::Paragraph, range(10, 20)),
        end(4),
        end(3),
        end(2),
        end(1),
    ];
    let a = Ancestry::from_events(&events);
    assert_eq!(a.covering_par(3), Some(1));
    assert_eq!(a.covering_par(4), None);
}

#[test]
fn elements_inside_an_artifact_and_paragraphs_drawn_only_there_are_furniture() {
    let events = vec![
        start(1, ElemKind::Artifact, None),
        start(2, ElemKind::Paragraph, range(0, 5)),
        end(2),
        end(1),
        start(3, ElemKind::Paragraph, range(10, 20)),
        start(4, ElemKind::Artifact, None),
        FrameEvent::Text,
        end(4),
        end(3),
        start(5, ElemKind::Paragraph, range(30, 40)),
        FrameEvent::Text,
        start(6, ElemKind::Artifact, None),
        FrameEvent::Text,
        end(6),
        end(5),
    ];
    let a = Ancestry::from_events(&events);
    assert!(!a.is_artifact(1));
    assert!(a.is_artifact(2));
    assert!(a.is_artifact(3));
    assert!(!a.is_artifact(4), "the artifact itself sits in no artifact");
    assert!(!a.is_artifact(5), "it also draws glyphs outside the artifact");
}

#[test]
fn elements_inside_emitted_containers_are_marked() {
    let events = vec![
        start(1, ElemKind::List, None),
        start(2, ElemKind::Paragraph, range(0, 5)),
        end(2),
        end(1),
        start(3, ElemKind::Other, None),
        start(4, ElemKind::Paragraph, range(6, 9)),
        end(4),
        end(3),
    ];
    let a = Ancestry::from_events(&events);
    assert!(a.is_in_emitted_container(2));
    assert!(!a.is_in_emitted_container(1));
    assert!(!a.is_in_emitted_container(4));
}

#[test]
fn a_stray_end_leaves_unrelated_ancestors_open() {
    let events = vec![
        start(1, ElemKind::Table, None),
        end(99),
        start(2, ElemKind::Paragraph, range(0, 5)),
        end(2),
        end(1),
    ];
    let a = Ancestry::from_events(&events);
    assert!(a.is_in_emitted_container(2));
}

#[test]
fn emitted_containers_are_the_node_kinds_and_page_repeats() {
    for kind in [
        ElemKind::Heading, ElemKind::Quote, ElemKind::List, ElemKind::Enum, ElemKind::Terms, ElemKind::Raw,
        ElemKind::Equation, ElemKind::Figure, ElemKind::Table, ElemKind::FootnoteEntry, ElemKind::Bibliography,
        ElemKind::Outline,
    ] {
        assert!(is_emitted_container(kind));
    }
    for kind in [ElemKind::Paragraph, ElemKind::Artifact, ElemKind::Other] {
        assert!(!is_emitted_container(kind));
    }
}

#[test]
fn ranges_contain_within_one_file_only() {
    let outer = SourceRange { file: 1, start: 0, end: 10 };
    assert!(contains(outer, SourceRange { file: 1, start: 0, end: 10 }));
    assert!(!contains(outer, SourceRange { file: 1, start: 0, end: 11 }));
    assert!(!contains(outer, SourceRange { file: 2, start: 2, end: 3 }));
    let open = |location: u128, par_range: Option<Option<SourceRange>>| Open {
        location,
        par_range,
        is_artifact: false,
        is_container: false,
        glyphs_in_artifact: 0,
        glyphs_outside_artifact: 0,
    };
    let stack = vec![open(1, Some(Some(outer))), open(2, None)];
    assert_eq!(covering_par(&stack, Some(SourceRange { file: 1, start: 3, end: 4 })), Some(1));
    assert_eq!(covering_par(&stack, None), None);
    let stack = vec![open(1, Some(Some(outer))), open(3, Some(None))];
    assert_eq!(covering_par(&stack, Some(SourceRange { file: 1, start: 3, end: 4 })), None);
}

#[test]
fn a_list_inside_another_list_or_item_is_nested() {
    let outer = SourceRange { file: 0, start: 0, end: 100 };
    let inner = SourceRange { file: 0, start: 10, end: 20 };
    assert!(is_strictly_nested(inner, outer));
    assert!(!is_strictly_nested(outer, outer));
    assert!(is_nested_list_or_enum(false, Some(inner), &vec![outer], &vec![]));
    assert!(is_nested_list_or_enum(false, Some(inner), &vec![inner], &vec![outer]));
    // A list is not nested in itself.
    assert!(!is_nested_list_or_enum(false, Some(outer), &vec![outer], &vec![]));
    assert!(!is_nested_list_or_enum(false, None, &vec![outer], &vec![outer]));
    assert!(is_nested_list_or_enum(true, None, &vec![], &vec![]));
}

#[test]
fn a_content_range_spans_what_it_holds_in_its_own_file() {
    let r = |file: u16, start: usize, end: usize| Some(SourceRange { file, start, end });
    let found = vec![r(1, 20, 30), None, r(2, 0, 500), r(1, 5, 12)];
    let got = content_range(r(1, 10, 15), None, &found).unwrap();
    assert_eq!((got.file, got.start, got.end), (1, 5, 30));
    // Without a range of its own, the first found range in its span's file starts it.
    let got = content_range(None, Some(2), &found).unwrap();
    assert_eq!((got.file, got.start, got.end), (2, 0, 500));
    assert!(content_range(None, None, &found).is_none());
    assert!(content_range(None, Some(3), &found).is_none());
}
