use typst_cnd::ide::{library_name, sanitize_cursor, LibraryImages, Lookup, SessionState};

const SVG: &[u8] = br#"<svg xmlns="http://www.w3.org/2000/svg" width="10" height="10"/>"#;

fn names(list: &[&str]) -> Vec<String> {
    list.iter().map(|name| name.to_string()).collect()
}

#[test]
fn sanitize_cursor_snaps_back_to_a_boundary() {
    let text = "#émoji";
    assert_eq!(sanitize_cursor(text, 0), 0);
    assert_eq!(sanitize_cursor(text, 1), 1);
    assert_eq!(sanitize_cursor(text, 2), 1); // inside `é`
    assert_eq!(sanitize_cursor(text, 3), 3);
    assert_eq!(sanitize_cursor(text, 9_999), text.len());
    assert_eq!(sanitize_cursor("", 5), 0);
}

#[test]
fn sanitize_cursor_steps_over_every_byte_of_a_wide_character() {
    // `😀` takes four bytes, 1..5.
    let text = "a😀b";
    for cursor in 1..5 {
        assert_eq!(sanitize_cursor(text, cursor), 1);
    }
    assert_eq!(sanitize_cursor(text, 5), 5);
    assert_eq!(sanitize_cursor(text, 6), 6);
    assert_eq!(sanitize_cursor(text, 7), 6);
}

#[test]
fn library_name_rejects_anything_but_a_bare_file_name() {
    assert_eq!(library_name("a/b.svg"), None);
    assert_eq!(library_name("a\\b.svg"), None);
    assert_eq!(library_name(".."), None);
    assert_eq!(library_name("."), None);
    assert_eq!(library_name(""), None);
    assert_eq!(library_name("logo.svg"), Some("logo.svg".into()));
}

#[test]
fn library_missing_bytes_are_reported_once_then_served() {
    let mut lib = LibraryImages::new();
    assert!(lib.set_library_images(&names(&["logo.svg"])));
    assert!(matches!(lib.library_file("logo.svg", false), Lookup::Missing));
    assert_eq!(lib.take_missing_library_images(), names(&["logo.svg"]));
    assert!(lib.take_missing_library_images().is_empty(), "drained");

    assert!(lib.add_library_image("logo.svg", SVG));
    match lib.library_file("logo.svg", false) {
        Lookup::Served(bytes) => assert_eq!(bytes, SVG),
        _ => panic!("the bytes are served"),
    }
    assert!(lib.take_missing_library_images().is_empty());
}

#[test]
fn library_pending_names_come_out_once_each_in_ascending_order() {
    let mut lib = LibraryImages::new();
    lib.set_library_images(&names(&["b.png", "a.png", "c.png"]));
    assert!(matches!(lib.library_file("c.png", false), Lookup::Missing));
    assert!(matches!(lib.library_file("a.png", false), Lookup::Missing));
    assert!(matches!(lib.library_file("c.png", false), Lookup::Missing));
    assert_eq!(lib.take_missing_library_images(), names(&["a.png", "c.png"]));
}

#[test]
fn library_names_outside_the_set_are_never_served_or_reported() {
    let mut lib = LibraryImages::new();
    lib.set_library_images(&names(&["logo.svg"]));
    assert!(lib.add_library_image("logo.svg", SVG));
    assert!(!lib.add_library_image("other.svg", SVG));
    assert!(matches!(lib.library_file("other.svg", false), Lookup::NotHandled));
    assert!(lib.take_missing_library_images().is_empty());
}

#[test]
fn library_files_found_elsewhere_are_not_served() {
    let mut lib = LibraryImages::new();
    lib.set_library_images(&names(&["logo.svg"]));
    lib.add_library_image("logo.svg", SVG);
    assert!(matches!(lib.library_file("logo.svg", true), Lookup::NotHandled));
    lib.set_library_images(&names(&["logo.svg", "new.svg"]));
    assert!(matches!(lib.library_file("new.svg", true), Lookup::NotHandled));
    assert!(lib.take_missing_library_images().is_empty());
}

#[test]
fn library_hostile_names_are_ignored() {
    let hostile = ["../x.svg", "a/b.svg", "a\\b.svg", "", ".", ".."];
    let mut lib = LibraryImages::new();
    assert!(!lib.set_library_images(&names(&hostile)));
    for name in hostile {
        assert!(!lib.add_library_image(name, SVG));
        assert!(matches!(lib.library_file(name, false), Lookup::NotHandled));
    }
    assert!(lib.take_missing_library_images().is_empty());
}

#[test]
fn library_replacing_the_set_drops_bytes() {
    let mut lib = LibraryImages::new();
    assert!(lib.set_library_images(&names(&["logo.svg"])));
    lib.add_library_image("logo.svg", SVG);
    assert!(matches!(lib.library_file("logo.svg", false), Lookup::Served(_)));

    assert!(lib.set_library_images(&names(&[])));
    assert!(matches!(lib.library_file("logo.svg", false), Lookup::NotHandled));
    // Re-adding the name without bytes does not resurrect the old bytes.
    assert!(lib.set_library_images(&names(&["logo.svg"])));
    assert!(matches!(lib.library_file("logo.svg", false), Lookup::Missing));
    // The same set again changes nothing.
    assert!(!lib.set_library_images(&names(&["logo.svg", "logo.svg"])));
}

#[test]
fn library_replacing_the_set_drops_pending_names_outside_it() {
    let mut lib = LibraryImages::new();
    lib.set_library_images(&names(&["a.svg", "b.svg"]));
    lib.library_file("a.svg", false);
    lib.library_file("b.svg", false);
    lib.set_library_images(&names(&["b.svg"]));
    assert_eq!(lib.take_missing_library_images(), names(&["b.svg"]));
}

#[test]
fn a_session_compiles_until_nothing_changed() {
    let mut s = SessionState::new();
    assert!(s.needs_compile(0));
    assert!(!s.cached(0));
    s.compiled(0, true);
    assert!(!s.needs_compile(0));
    assert!(s.cached(0));
    assert!(s.needs_compile(1));
    assert!(!s.cached(1));
    s.touch();
    assert!(s.needs_compile(0));
    s.compiled(0, false);
    assert!(!s.needs_compile(0));
    assert!(!s.cached(0));
}

#[test]
fn library_names_are_the_valid_names_of_the_set() {
    let mut lib = LibraryImages::new();
    lib.set_library_images(&names(&["b.svg", "../x.svg", "a.svg"]));
    let mut got = lib.names();
    got.sort();
    assert_eq!(got, names(&["a.svg", "b.svg"]));
}
