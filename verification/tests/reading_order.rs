use std::cmp::Ordering;

use typst_cnd::reading_order::{compare_keys, reading_key, reading_key_lt, sort_by_reading_order, ReadingKey};

#[test]
fn reading_key_orders_document_then_columns() {
    let same_doc_a = ReadingKey { doc: 5, page: 1, x: 10, y: 20 };
    let same_doc_b = ReadingKey { doc: 5, page: 1, x: 10, y: 40 };
    let later_doc = ReadingKey { doc: 6, page: 1, x: 0, y: 0 };

    assert!(same_doc_a < same_doc_b);
    assert!(same_doc_b < later_doc);
}

#[test]
fn reading_key_column_major_within_same_doc() {
    let left = ReadingKey { doc: 3, page: 1, x: 10, y: 100 };
    let right = ReadingKey { doc: 3, page: 1, x: 200, y: 10 };

    assert!(left < right);
}

#[test]
fn the_verified_comparison_agrees_with_the_derived_order() {
    let keys = [
        ReadingKey { doc: 1, page: 2, x: 3, y: 4 },
        ReadingKey { doc: 1, page: 2, x: 3, y: 5 },
        ReadingKey { doc: 1, page: 2, x: -7, y: 9 },
        ReadingKey { doc: 1, page: 3, x: 0, y: 0 },
        ReadingKey { doc: 0, page: 9, x: 9, y: 9 },
    ];
    for a in &keys {
        for b in &keys {
            assert_eq!(reading_key_lt(a, b), a < b);
            assert_eq!(compare_keys(a, b), a.cmp(b));
        }
    }
    assert_eq!(compare_keys(&keys[0], &keys[0]), Ordering::Equal);
}

#[test]
fn a_missing_page_or_position_takes_its_default() {
    let k = reading_key(4, None, None);
    assert_eq!(k, ReadingKey { doc: 4, page: 1, x: 0, y: 0 });
    let k = reading_key(2, Some(7), Some((-3, 11)));
    assert_eq!(k, ReadingKey { doc: 2, page: 7, x: -3, y: 11 });
}

#[test]
fn sorting_orders_by_key_and_keeps_equal_keys_in_place() {
    let a = ReadingKey { doc: 1, page: 1, x: 10, y: 10 };
    let b = ReadingKey { doc: 1, page: 1, x: 20, y: 0 };
    let c = ReadingKey { doc: 0, page: 5, x: 0, y: 0 };
    let mut items = vec![(b, "b1"), (a, "a1"), (b, "b2"), (c, "c1"), (a, "a2")];
    sort_by_reading_order(&mut items);
    let order: Vec<&str> = items.iter().map(|(_, s)| *s).collect();
    assert_eq!(order, vec!["c1", "a1", "a2", "b1", "b2"]);
}
