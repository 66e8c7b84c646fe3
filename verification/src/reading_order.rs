//! Reading order for laid-out nodes.
//!
//! Multi-column layouts place content side by side; nodes come out in human
//! reading order: by their position in the document first, then column by
//! column, top to bottom within a column.

use vstd::prelude::*;

verus! {

/// Where a node sits, compared field by field in this order.
#[derive(Clone, Copy, Debug, PartialEq, Eq, PartialOrd, Ord)]
pub struct ReadingKey {
    /// How many document-level elements come before the node.
    pub doc: usize,
    pub page: u32,
    /// Column-major tie-break inside a multi-column region, in thousandths
    /// of a point.
    pub x: i64,
    pub y: i64,
}

/// Whether `a` comes strictly before `b`: lexicographically by document
/// position, page, horizontal then vertical position.
pub open spec fn key_lt(a: ReadingKey, b: ReadingKey) -> bool {
    if a.doc != b.doc {
        a.doc < b.doc
    } else if a.page != b.page {
        a.page < b.page
    } else if a.x != b.x {
        a.x < b.x
    } else {
        a.y < b.y
    }
}

/// Whether `a` comes strictly before `b` in reading order.
pub fn reading_key_lt(a: &ReadingKey, b: &ReadingKey) -> (r: bool)
    ensures
        r == key_lt(*a, *b),
{
    if a.doc != b.doc {
        a.doc < b.doc
    } else if a.page != b.page {
        a.page < b.page
    } else if a.x != b.x {
        a.x < b.x
    } else {
        a.y < b.y
    }
}

/// How `a` compares with `b` in reading order.
pub fn compare_keys(a: &ReadingKey, b: &ReadingKey) -> (r: std::cmp::Ordering)
    ensures
        r is Less <==> key_lt(*a, *b),
        r is Greater <==> key_lt(*b, *a),
        r is Equal <==> *a == *b,
{
    if reading_key_lt(a, b) {
        std::cmp::Ordering::Less
    } else if reading_key_lt(b, a) {
        std::cmp::Ordering::Greater
    } else {
        std::cmp::Ordering::Equal
    }
}

/// The reading key of a node: its document position, its page (the first
/// when unknown) and its position on the page (the origin when unknown).
pub fn reading_key(doc: usize, page: Option<usize>, position: Option<(i64, i64)>) -> (k: ReadingKey)
    ensures
        k.doc == doc,
        k.page == (match page {
            Some(p) => p as u32,
            None => 1u32,
        }),
        (k.x, k.y) == (match position {
            Some(p) => p,
            None => (0i64, 0i64),
        }),
{
    let page: u32 = match page {
        Some(p) => p as u32,
        None => 1,
    };
    let (x, y) = match position {
        Some(p) => p,
        None => (0, 0),
    };
    ReadingKey { doc, page, x, y }
}

/// Whether the keys of `s` never decrease.
pub open spec fn keys_sorted<T>(s: Seq<(ReadingKey, T)>) -> bool {
    forall|i: int, j: int| 0 <= i < j < s.len() ==> !key_lt(#[trigger] s[j].0, #[trigger] s[i].0)
}

/// Whether an item has key `k`.
pub open spec fn has_key<T>(k: ReadingKey) -> spec_fn((ReadingKey, T)) -> bool {
    |e: (ReadingKey, T)| e.0 == k
}

/// The items of `s` with key `k`, in order.
pub open spec fn with_key<T>(s: Seq<(ReadingKey, T)>, k: ReadingKey) -> Seq<(ReadingKey, T)> {
    s.filter(has_key(k))
}

proof fn lemma_key_lt_total(a: ReadingKey, b: ReadingKey)
    ensures
        a == b || key_lt(a, b) || key_lt(b, a),
        !(key_lt(a, b) && key_lt(b, a)),
        !key_lt(a, a),
{
}

proof fn lemma_insert_keeps_runs<T>(s: Seq<(ReadingKey, T)>, x: (ReadingKey, T), j: int, k: ReadingKey)
    requires
        0 <= j <= s.len(),
        forall|a: int| j <= a < s.len() ==> key_lt(x.0, #[trigger] s[a].0),
    ensures
        with_key(s.insert(j, x), k) == if x.0 == k {
            with_key(s, k).push(x)
        } else {
            with_key(s, k)
        },
{
    let f = has_key::<T>(k);
    let t = s.insert(j, x);
    assert(t =~= s.take(j) + (seq![x] + s.skip(j)));
    assert(s =~= s.take(j) + s.skip(j));
    Seq::filter_distributes_over_add(s.take(j), seq![x] + s.skip(j), f);
    Seq::filter_distributes_over_add(seq![x], s.skip(j), f);
    Seq::filter_distributes_over_add(s.take(j), s.skip(j), f);
    if x.0 == k {
        assert forall|a: int| 0 <= a < s.skip(j).len() implies !f(#[trigger] s.skip(j)[a]) by {
            assert(s.skip(j)[a] == s[j + a]);
            lemma_key_lt_total(x.0, s[j + a].0);
        }
        s.skip(j).lemma_all_neg_filter_empty(f);
        assert(seq![x].filter(f) =~= seq![x]) by {
            reveal(Seq::filter);
            assert(seq![x].drop_last() =~= Seq::<(ReadingKey, T)>::empty());
        }
        assert(s.skip(j).filter(f) =~= Seq::<(ReadingKey, T)>::empty());
        assert(with_key(t, k) =~= with_key(s, k).push(x));
    } else {
        assert(seq![x].filter(f) =~= Seq::<(ReadingKey, T)>::empty()) by {
            reveal_with_fuel(Seq::filter, 2);
            assert(seq![x].drop_last() =~= Seq::<(ReadingKey, T)>::empty());
        }
        assert(with_key(t, k) =~= with_key(s, k));
    }
}

/// Sorts `items` into reading order by their keys; items with equal keys
/// keep their order.
pub fn sort_by_reading_order<T>(items: &mut Vec<(ReadingKey, T)>)
    ensures
        final(items)@.len() == old(items)@.len(),
        keys_sorted(final(items)@),
        forall|k: ReadingKey| #[trigger] with_key(final(items)@, k) == with_key(old(items)@, k),
{
    let mut src: Vec<(ReadingKey, T)> = Vec::new();
    std::mem::swap(items, &mut src);
    let ghost orig = src@;
    let mut out: Vec<(ReadingKey, T)> = Vec::new();
    let mut i: usize = 0;
    while src.len() > 0
        invariant
            0 <= i <= orig.len(),
            src@ == orig.skip(i as int),
            out@.len() == i,
            keys_sorted(out@),
            forall|k: ReadingKey| #[trigger] with_key(out@, k) == with_key(orig.take(i as int), k),
        decreases src@.len(),
    {
        assert(i < orig.len());
        let x = src.remove(0);
        assert(x == orig[i as int]);
        let mut j: usize = out.len();
        while j > 0 && reading_key_lt(&x.0, &out[j - 1].0)
            invariant
                0 <= j <= out@.len(),
                forall|a: int| j <= a < out@.len() ==> key_lt(x.0, #[trigger] out@[a].0),
            decreases j,
        {
            j -= 1;
        }
        let ghost before = out@;
        proof {
            assert forall|k: ReadingKey| #[trigger] with_key(before.insert(j as int, x), k) == with_key(
                orig.take(i + 1),
                k,
            ) by {
                lemma_insert_keeps_runs(before, x, j as int, k);
                assert(orig.take(i + 1) == orig.take(i as int).push(x));
                orig.take(i as int).lemma_filter_push(x, has_key::<T>(k));
            }
            assert forall|a: int, b: int| 0 <= a < b < before.len() + 1 implies !key_lt(
                #[trigger] before.insert(j as int, x)[b].0,
                #[trigger] before.insert(j as int, x)[a].0,
            ) by {
                let t = before.insert(j as int, x);
                if a < j && b < j {
                    assert(t[a] == before[a] && t[b] == before[b]);
                } else if a < j && b == j {
                    assert(t[a] == before[a]);
                    if j > 0 {
                        lemma_key_lt_total(x.0, before[j - 1].0);
                        if a < j - 1 {
                            assert(!key_lt(before[j - 1].0, before[a].0));
                        }
                    }
                } else if a < j {
                    assert(t[a] == before[a] && t[b] == before[b - 1]);
                } else if a == j {
                    assert(t[b] == before[b - 1]);
                    lemma_key_lt_total(x.0, before[b - 1].0);
                } else {
                    assert(t[a] == before[a - 1] && t[b] == before[b - 1]);
                }
            }
        }
        out.insert(j, x);
        i = out.len();
        assert(src@ =~= orig.skip(i as int));
    }
    assert(orig.take(i as int) =~= orig);
    *items = out;
}

} // verus!
