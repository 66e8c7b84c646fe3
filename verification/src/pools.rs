//! The footnote pool: footnotes sit outside the reading flow as pool
//! entries, reached from the nodes that mark them through `footnotes`
//! edges.

use vstd::prelude::*;

use rustc_hash::FxHashMap;

use crate::convert::{is_key_order, keys_in, record_order, walk_of, ConvertContext, NodeRecord};
use crate::fxmap::{fx_get, fx_get_ref, fx_insert};
use crate::model::{CndNode, Footnote, FootnoteRef};
use crate::refs::span_written;
use crate::tree::{contains_id, edit_node, edited, NodeEdit};

verus! {

/// A fresh random id, as `uuid::Uuid::new_v4` makes one: version 4 and
/// the RFC 4122 variant; its other bits are random.
#[verifier::external_body]
pub(crate) fn fresh_id() -> (r: u128)
    ensures
        (r >> 76u128) & 0xfu128 == 4,
        (r >> 62u128) & 0x3u128 == 2,
{
    uuid::Uuid::new_v4().as_u128()
}

/// What the introspector knows of one footnote element.
pub struct FootnoteFact {
    /// Whether it re-references another footnote (`#footnote(<label>)`).
    pub is_ref: bool,
    /// Its own location.
    pub location: Option<u128>,
    /// The location of the footnote it declares or refers to.
    pub declaration: Option<u128>,
    /// Its rendered ordinal.
    pub label: String,
    /// Its body, as flat text.
    pub text: String,
}

/// Whether pool `pool` has an entry with id `id`.
pub open spec fn in_pool(pool: Seq<Footnote>, id: u128) -> bool {
    exists|i: int| 0 <= i < pool.len() && (#[trigger] pool[i]).id == id
}

/// Whether `(m2, p2)` is `(m1, p1)` after declaration `f` is put in the
/// pool: its location leads to an id, a fresh one if it led to none, and
/// the pool gains an entry for that id unless it has one.
pub open spec fn declared(
    m1: Map<u128, u128>,
    p1: Seq<Footnote>,
    m2: Map<u128, u128>,
    p2: Seq<Footnote>,
    f: FootnoteFact,
) -> bool {
    if f.is_ref || f.location is None {
        m2 == m1 && p2 == p1
    } else {
        let loc = f.location.unwrap();
        &&& m2.contains_key(loc)
        &&& m1.contains_key(loc) ==> m2 == m1
        &&& !m1.contains_key(loc) ==> m2 == m1.insert(loc, m2[loc])
        &&& if in_pool(p1, m2[loc]) {
            p2 == p1
        } else {
            p2 == p1.push(Footnote { id: m2[loc], label: f.label, text: f.text })
        }
    }
}

/// Whether `(m2, p2)` is `(m1, p1)` after the declarations among `fs` are
/// put in the pool in turn.
pub open spec fn all_declared(
    m1: Map<u128, u128>,
    p1: Seq<Footnote>,
    m2: Map<u128, u128>,
    p2: Seq<Footnote>,
    fs: Seq<FootnoteFact>,
) -> bool
    decreases fs.len(),
{
    if fs.len() == 0 {
        m2 == m1 && p2 == p1
    } else {
        exists|m: Map<u128, u128>, p: Seq<Footnote>|
            all_declared(m1, p1, m, p, fs.drop_last()) && declared(m, p, m2, p2, fs.last())
    }
}

/// The marker map after every footnote of `fs` with a location is led to
/// the entry of the footnote it declares or refers to.
pub open spec fn markers_mapped(m: Map<u128, u128>, fs: Seq<FootnoteFact>) -> Map<u128, u128>
    decreases fs.len(),
{
    if fs.len() == 0 {
        m
    } else {
        let prev = markers_mapped(m, fs.drop_last());
        let f = fs.last();
        if f.location is Some && f.declaration is Some && prev.contains_key(f.declaration.unwrap()) {
            prev.insert(f.location.unwrap(), prev[f.declaration.unwrap()])
        } else {
            prev
        }
    }
}

/// Whether no two entries of `pool` share an id.
pub open spec fn pool_ids_distinct(pool: Seq<Footnote>) -> bool {
    forall|i: int, j: int| 0 <= i < j < pool.len() ==> #[trigger] pool[i].id != #[trigger] pool[j].id
}

/// Each footnote has one entry in the pool: putting declarations in a pool
/// whose ids are distinct leaves its ids distinct.
pub proof fn law_pool_entries_distinct(
    m1: Map<u128, u128>,
    p1: Seq<Footnote>,
    m2: Map<u128, u128>,
    p2: Seq<Footnote>,
    fs: Seq<FootnoteFact>,
)
    requires
        pool_ids_distinct(p1),
        all_declared(m1, p1, m2, p2, fs),
    ensures
        pool_ids_distinct(p2),
    decreases fs.len(),
{
    if fs.len() > 0 {
        let (m, p) = choose|m: Map<u128, u128>, p: Seq<Footnote>|
            all_declared(m1, p1, m, p, fs.drop_last()) && declared(m, p, m2, p2, fs.last());
        law_pool_entries_distinct(m1, p1, m, p, fs.drop_last());
        let f = fs.last();
        if !(f.is_ref || f.location is None) {
            let id = m2[f.location.unwrap()];
            if !in_pool(p, id) {
                assert forall|i: int, j: int| 0 <= i < j < p2.len() implies #[trigger] p2[i].id
                    != #[trigger] p2[j].id by {
                    if j == p.len() {
                        assert(p2[i] == p[i]);
                        assert(p2[j].id == id);
                    } else {
                        assert(p2[i] == p[i]);
                        assert(p2[j] == p[j]);
                    }
                }
            }
        }
    }
}

fn pool_has(pool: &Vec<Footnote>, id: u128) -> (r: bool)
    ensures
        r == in_pool(pool@, id),
{
    let mut i: usize = 0;
    while i < pool.len()
        invariant
            0 <= i <= pool@.len(),
            forall|j: int| 0 <= j < i ==> (#[trigger] pool@[j]).id != id,
        decreases pool@.len() - i,
    {
        if pool[i].id == id {
            assert(pool@[i as int].id == id);
            return true;
        }
        i += 1;
    }
    false
}

/// Builds the footnote pool: each declaration (not a re-reference) with a
/// location gets a pool entry, under a fresh id unless its location already
/// has one; then every marker, declaration or re-reference, is led to the
/// entry of the footnote it declares or refers to. Finally each node gains
/// a `footnotes` edge for each marker it holds.
pub fn resolve_footnotes(ctx: &mut ConvertContext, facts: &Vec<FootnoteFact>)
    ensures
        exists|m: Map<u128, u128>|
            {
                &&& all_declared(
                    old(ctx).footnote_loc_to_id@,
                    old(ctx).footnotes@,
                    m,
                    final(ctx).footnotes@,
                    facts@,
                )
                &&& final(ctx).footnote_loc_to_id@ == markers_mapped(m, facts@)
            },
        exists|order: Seq<u128>|
            is_key_order(order, final(ctx).records@) && footnote_edges_applied(
                old(ctx).roots@,
                final(ctx).roots@,
                footnote_edges(walk_of(order, final(ctx).records@), final(ctx).footnote_loc_to_id@),
                final(ctx).footnotes@,
            ),
        final(ctx).records == old(ctx).records,
        final(ctx).label_to_id == old(ctx).label_to_id,
        final(ctx).location_to_id == old(ctx).location_to_id,
        final(ctx).bibliography == old(ctx).bibliography,
        final(ctx).bib_key_to_id == old(ctx).bib_key_to_id,
{
    let ghost m0 = ctx.footnote_loc_to_id@;
    let ghost p0 = ctx.footnotes@;
    let mut i: usize = 0;
    while i < facts.len()
        invariant
            0 <= i <= facts@.len(),
            all_declared(m0, p0, ctx.footnote_loc_to_id@, ctx.footnotes@, facts@.take(i as int)),
            m0 == old(ctx).footnote_loc_to_id@,
            p0 == old(ctx).footnotes@,
            ctx.roots == old(ctx).roots,
            ctx.records == old(ctx).records,
            ctx.label_to_id == old(ctx).label_to_id,
            ctx.location_to_id == old(ctx).location_to_id,
            ctx.bibliography == old(ctx).bibliography,
            ctx.bib_key_to_id == old(ctx).bib_key_to_id,
        decreases facts@.len() - i,
    {
        assert(facts@.take(i + 1).drop_last() == facts@.take(i as int));
        assert(facts@.take(i + 1).last() == facts@[i as int]);
        let ghost m1 = ctx.footnote_loc_to_id@;
        let ghost p1 = ctx.footnotes@;
        let f = &facts[i];
        if !f.is_ref {
            match f.location {
                Some(loc) => {
                    let id = match fx_get(&ctx.footnote_loc_to_id, &loc) {
                        Some(id) => id,
                        None => {
                            let id = fresh_id();
                            fx_insert(&mut ctx.footnote_loc_to_id, loc, id);
                            id
                        },
                    };
                    if !pool_has(&ctx.footnotes, id) {
                        ctx.footnotes.push(Footnote { id, label: f.label.clone(), text: f.text.clone() });
                    }
                },
                None => {},
            }
        }
        assert(declared(m1, p1, ctx.footnote_loc_to_id@, ctx.footnotes@, facts@[i as int]));
        assert(all_declared(m0, p0, ctx.footnote_loc_to_id@, ctx.footnotes@, facts@.take(i + 1)));
        i += 1;
    }
    assert(facts@.take(i as int) == facts@);
    let ghost m = ctx.footnote_loc_to_id@;
    let mut j: usize = 0;
    while j < facts.len()
        invariant
            0 <= j <= facts@.len(),
            ctx.footnote_loc_to_id@ == markers_mapped(m, facts@.take(j as int)),
            all_declared(m0, p0, m, ctx.footnotes@, facts@),
            m0 == old(ctx).footnote_loc_to_id@,
            p0 == old(ctx).footnotes@,
            ctx.roots == old(ctx).roots,
            ctx.records == old(ctx).records,
            ctx.label_to_id == old(ctx).label_to_id,
            ctx.location_to_id == old(ctx).location_to_id,
            ctx.bibliography == old(ctx).bibliography,
            ctx.bib_key_to_id == old(ctx).bib_key_to_id,
        decreases facts@.len() - j,
    {
        assert(facts@.take(j + 1).drop_last() == facts@.take(j as int));
        assert(facts@.take(j + 1).last() == facts@[j as int]);
        let f = &facts[j];
        match (f.location, f.declaration) {
            (Some(own), Some(decl)) => {
                match fx_get(&ctx.footnote_loc_to_id, &decl) {
                    Some(id) => fx_insert(&mut ctx.footnote_loc_to_id, own, id),
                    None => {},
                }
            },
            _ => {},
        }
        j += 1;
    }
    assert(facts@.take(j as int) == facts@);
    let ghost mid = *ctx;
    resolve_footnote_edges(ctx);
    proof {
        let order = choose|order: Seq<u128>|
            is_key_order(order, mid.records@) && footnote_edges_applied(
                mid.roots@,
                ctx.roots@,
                footnote_edges(walk_of(order, mid.records@), mid.footnote_loc_to_id@),
                mid.footnotes@,
            );
        assert(is_key_order(order, ctx.records@) && footnote_edges_applied(
            old(ctx).roots@,
            ctx.roots@,
            footnote_edges(walk_of(order, ctx.records@), ctx.footnote_loc_to_id@),
            ctx.footnotes@,
        ));
    }
}

/// The footnote edges records `rs` give: for each record, each marker whose
/// location leads to a pool entry, with the marker's text span.
pub open spec fn footnote_edges(rs: Seq<(u128, NodeRecord)>, m: Map<u128, u128>) -> Seq<
    (u128, u128, Option<(i64, i64)>),
>
    decreases rs.len(),
{
    if rs.len() == 0 {
        Seq::empty()
    } else {
        footnote_edges(rs.drop_last(), m) + marker_footnotes(rs.last().0, rs.last().1.footnote_locs@, m)
    }
}

/// The footnote edges of node `id` from its markers `ls`.
pub open spec fn marker_footnotes(id: u128, ls: Seq<(u128, Option<(i64, i64)>)>, m: Map<u128, u128>) -> Seq<
    (u128, u128, Option<(i64, i64)>),
>
    decreases ls.len(),
{
    if ls.len() == 0 {
        Seq::empty()
    } else {
        let prev = marker_footnotes(id, ls.drop_last(), m);
        if m.contains_key(ls.last().0) {
            prev.push((id, m[ls.last().0], ls.last().1))
        } else {
            prev
        }
    }
}

/// The label of pool entry `id`: that of the last entry with the id.
pub open spec fn pool_label(pool: Seq<Footnote>, id: u128) -> Option<String>
    decreases pool.len(),
{
    if pool.len() == 0 {
        None
    } else if pool.last().id == id {
        Some(pool.last().label)
    } else {
        pool_label(pool.drop_last(), id)
    }
}

/// Whether tree `new` is `mid` with footnote edge `e` attached to its
/// source node (when the tree holds it), unless that node has an edge to
/// the same entry.
pub open spec fn footnote_step(
    mid: Seq<CndNode>,
    new: Seq<CndNode>,
    e: (u128, u128, Option<(i64, i64)>),
    pool: Seq<Footnote>,
) -> bool {
    if contains_id(mid, e.0) {
        exists|r: FootnoteRef|
            r.id == e.1 && r.label == pool_label(pool, e.1) && span_written(e.2, r.span) && edited(
                mid,
                new,
                e.0,
                NodeEdit::AddFootnote(r),
            )
    } else {
        new == mid
    }
}

/// Whether tree `new` is `old` with footnote edges `es` attached in turn.
pub open spec fn footnote_edges_applied(
    old: Seq<CndNode>,
    new: Seq<CndNode>,
    es: Seq<(u128, u128, Option<(i64, i64)>)>,
    pool: Seq<Footnote>,
) -> bool
    decreases es.len(),
{
    if es.len() == 0 {
        new == old
    } else {
        exists|mid: Seq<CndNode>|
            footnote_edges_applied(old, mid, es.drop_last(), pool) && footnote_step(mid, new, es.last(), pool)
    }
}

fn find_pool_label(pool: &Vec<Footnote>, id: u128) -> (r: Option<String>)
    ensures
        r == pool_label(pool@, id),
{
    let mut i: usize = pool.len();
    assert(pool@.take(i as int) == pool@);
    while i > 0
        invariant
            0 <= i <= pool@.len(),
            pool_label(pool@, id) == pool_label(pool@.take(i as int), id),
        decreases i,
    {
        assert(pool@.take(i as int).last() == pool@[i - 1]);
        assert(pool@.take(i as int).drop_last() == pool@.take(i - 1));
        if pool[i - 1].id == id {
            return Some(pool[i - 1].label.clone());
        }
        i -= 1;
    }
    None
}

/// Attaches a `footnotes` edge to each node for every marker in its record
/// whose location leads to a pool entry, the records walked in the map's
/// own order; a marker leading nowhere is dropped.
pub fn resolve_footnote_edges(ctx: &mut ConvertContext)
    ensures
        exists|order: Seq<u128>|
            is_key_order(order, old(ctx).records@) && footnote_edges_applied(
                old(ctx).roots@,
                final(ctx).roots@,
                footnote_edges(walk_of(order, old(ctx).records@), old(ctx).footnote_loc_to_id@),
                old(ctx).footnotes@,
            ),
        *final(ctx) == (ConvertContext { roots: final(ctx).roots, ..*old(ctx) }),
{
    let order = record_order(&ctx.records);
    let ghost rs = walk_of(order@, ctx.records@);
    let mut edges: Vec<(u128, u128, Option<(i64, i64)>)> = Vec::new();
    let mut k: usize = 0;
    while k < order.len()
        invariant
            0 <= k <= order@.len(),
            rs == walk_of(order@, ctx.records@),
            keys_in(order@, ctx.records@),
            edges@ == footnote_edges(rs.take(k as int), ctx.footnote_loc_to_id@),
        decreases order@.len() - k,
    {
        assert(rs.take(k + 1).drop_last() == rs.take(k as int));
        assert(rs.take(k + 1).last() == rs[k as int]);
        let id = order[k];
        assert(ctx.records@.contains_key(order@[k as int]));
        let record = fx_get_ref(&ctx.records, &id).unwrap();
        let locs = &record.footnote_locs;
        let ghost before = edges@;
        let mut i: usize = 0;
        while i < locs.len()
            invariant
                0 <= i <= locs@.len(),
                edges@ == before + marker_footnotes(id, locs@.take(i as int), ctx.footnote_loc_to_id@),
            decreases locs@.len() - i,
        {
            assert(locs@.take(i + 1).drop_last() == locs@.take(i as int));
            assert(locs@.take(i + 1).last() == locs@[i as int]);
            match fx_get(&ctx.footnote_loc_to_id, &locs[i].0) {
                Some(pool_id) => edges.push((id, pool_id, locs[i].1)),
                None => {},
            }
            i += 1;
        }
        assert(locs@.take(i as int) == locs@);
        k += 1;
    }
    assert(rs.take(k as int) == rs);
    let ghost start = ctx.roots@;
    let mut e: usize = 0;
    assert(edges@.take(0) == Seq::<(u128, u128, Option<(i64, i64)>)>::empty());
    while e < edges.len()
        invariant
            0 <= e <= edges@.len(),
            footnote_edges_applied(start, ctx.roots@, edges@.take(e as int), old(ctx).footnotes@),
            start == old(ctx).roots@,
            *ctx == (ConvertContext { roots: ctx.roots, ..*old(ctx) }),
        decreases edges@.len() - e,
    {
        let ghost mid = ctx.roots@;
        let (node_id, pool_id, span) = edges[e];
        let label = find_pool_label(&ctx.footnotes, pool_id);
        let r = FootnoteRef { id: pool_id, label, span: crate::refs::write_span(span) };
        let ghost edge = r;
        let _ = edit_node(&mut ctx.roots, node_id, NodeEdit::AddFootnote(r));
        proof {
            assert(edges@.take(e + 1).drop_last() == edges@.take(e as int));
            assert(edges@.take(e + 1).last() == edges@[e as int]);
            if contains_id(mid, node_id) {
                assert(edited(mid, ctx.roots@, node_id, NodeEdit::AddFootnote(edge)));
                assert(edge.id == pool_id && edge.label == pool_label(old(ctx).footnotes@, pool_id)
                    && span_written(span, edge.span));
                assert(exists|r: FootnoteRef|
                    r.id == pool_id && r.label == pool_label(old(ctx).footnotes@, pool_id) && span_written(
                        span,
                        r.span,
                    ) && edited(mid, ctx.roots@, node_id, NodeEdit::AddFootnote(r)));
            }
            assert(footnote_step(mid, ctx.roots@, edges@[e as int], old(ctx).footnotes@));
        }
        e += 1;
    }
    assert(edges@.take(e as int) == edges@);
    assert(is_key_order(order@, old(ctx).records@));
}

} // verus!
