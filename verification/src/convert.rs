//! The conversion context: what is recorded of each emitted node, the
//! indexes from labels and introspection locations to node ids, and the
//! heading stack that nests the reading flow under its headings.
//!
//! Introspection locations are carried as their 128-bit hash; labels as
//! their text.

use vstd::prelude::*;

use rustc_hash::FxHashMap;

use crate::extract::{ExtractedMarker, MarkerKind};
use crate::fmt::{push_str, string_from_chars};
use crate::textset::{ascending, insert_name, insert_sorted_text, lemma_insert_name_members, texts_of};
use crate::fxmap::{fx_get, fx_get_ref, fx_insert, fx_keys};
use crate::labels::LabelIndex;
use crate::meta::{copy_entries, entries_view, meta_view};
use crate::model::{base_of, BibEntry, CndNode, Footnote, HeadingNode, MetaValue, NodeBase, NodeLocation};
use crate::tree::{assign_locations, node_mapped, page_assigned, tree_mapped};

verus! {

/// A citation marker occurring in a node's content.
pub struct CiteMarker {
    /// The bibliography key cited.
    pub key: String,
    /// The marker's own location.
    pub loc: u128,
    pub form: Option<String>,
    pub supplement: Option<String>,
    /// The marker's `[start, end)` code-point span in the node's text, for
    /// nodes whose text is one flat string.
    pub span: Option<(i64, i64)>,
}

/// What is captured of each emitted node.
pub struct NodeRecord {
    pub location: Option<u128>,
    pub label: Option<String>,
    /// Labels the node's content refers to.
    pub ref_targets: Vec<String>,
    /// Footnote markers in the node's content: each marker's own location
    /// and its text span where the node's text is one flat string.
    pub footnote_locs: Vec<(u128, Option<(i64, i64)>)>,
    pub cite_markers: Vec<CiteMarker>,
    /// Cross-reference markers with their text spans (flat-text nodes only).
    pub ref_markers: Vec<(String, (i64, i64))>,
    /// The metadata state at the node, keys ascending.
    pub state_metadata: Vec<(String, MetaValue)>,
}

/// The state shared across the document walk.
pub struct ConvertContext {
    pub roots: Vec<CndNode>,
    /// Each emitted node's record, by node id.
    pub records: FxHashMap<u128, NodeRecord>,
    pub location_to_id: FxHashMap<u128, u128>,
    pub label_to_id: LabelIndex,
    /// The footnote pool.
    pub footnotes: Vec<Footnote>,
    /// A footnote marker's own location (declaration or re-reference) to
    /// its pool entry.
    pub footnote_loc_to_id: FxHashMap<u128, u128>,
    /// The bibliography pool.
    pub bibliography: Vec<BibEntry>,
    /// A bibliography key to its pool entry.
    pub bib_key_to_id: LabelIndex,
}

impl ConvertContext {
    /// An empty context.
    pub fn new() -> (r: Self)
        ensures
            r.roots@.len() == 0,
            r.records@ == Map::<u128, NodeRecord>::empty(),
            r.location_to_id@ == Map::<u128, u128>::empty(),
            r.label_to_id@ == Map::<Seq<char>, u128>::empty(),
            r.footnotes@.len() == 0,
            r.footnote_loc_to_id@ == Map::<u128, u128>::empty(),
            r.bibliography@.len() == 0,
            r.bib_key_to_id@ == Map::<Seq<char>, u128>::empty(),
    {
        ConvertContext {
            roots: Vec::new(),
            records: FxHashMap::default(),
            location_to_id: FxHashMap::default(),
            label_to_id: LabelIndex::new(),
            footnotes: Vec::new(),
            footnote_loc_to_id: FxHashMap::default(),
            bibliography: Vec::new(),
            bib_key_to_id: LabelIndex::new(),
        }
    }

    /// Records node `id`: its label and location now lead to it, and its
    /// record replaces any earlier one for the same id.
    pub fn register(&mut self, id: u128, record: NodeRecord)
        ensures
            final(self).label_to_id@ == (match record.label {
                Some(l) => old(self).label_to_id@.insert(l@, id),
                None => old(self).label_to_id@,
            }),
            final(self).location_to_id@ == (match record.location {
                Some(loc) => old(self).location_to_id@.insert(loc, id),
                None => old(self).location_to_id@,
            }),
            final(self).records@ == old(self).records@.insert(id, record),
            final(self).roots == old(self).roots,
            final(self).footnotes == old(self).footnotes,
            final(self).footnote_loc_to_id == old(self).footnote_loc_to_id,
            final(self).bibliography == old(self).bibliography,
            final(self).bib_key_to_id == old(self).bib_key_to_id,
    {
        match &record.label {
            Some(label) => self.label_to_id.insert(label.clone(), id),
            None => {},
        }
        match record.location {
            Some(location) => fx_insert(&mut self.location_to_id, location, id),
            None => {},
        }
        fx_insert(&mut self.records, id, record);
    }
}

// ---------------------------------------------------------------------------
// Applying records to the tree

/// Whether base `b` is base `a` with the label and metadata of the record
/// of its id applied: the record's label replaces the node's, and its
/// metadata replaces the node's when it has any.
pub open spec fn record_applied(records: Map<u128, NodeRecord>, a: NodeBase, b: NodeBase) -> bool {
    if !records.contains_key(a.id) {
        b == a
    } else {
        let r = records[a.id];
        &&& b == NodeBase { label: b.label, state_metadata: b.state_metadata, ..a }
        &&& b.label == (match r.label {
            Some(l) => Some(l),
            None => a.label,
        })
        &&& if r.state_metadata@.len() > 0 {
            entries_view(b.state_metadata@) == entries_view(r.state_metadata@)
        } else {
            b.state_metadata == a.state_metadata
        }
    }
}

/// The record of node `id`, if it has one.
pub fn find_record(records: &FxHashMap<u128, NodeRecord>, id: u128) -> (r: Option<&NodeRecord>)
    ensures
        r is Some <==> records@.contains_key(id),
        r matches Some(rec) ==> *rec == records@[id],
{
    fx_get_ref(records, &id)
}

/// The records of `records` taken in the key order `order`.
pub open spec fn walk_of(order: Seq<u128>, records: Map<u128, NodeRecord>) -> Seq<(u128, NodeRecord)> {
    order.map_values(|id: u128| (id, records[id]))
}

/// Whether every key of `order` has a record in `records`.
pub open spec fn keys_in(order: Seq<u128>, records: Map<u128, NodeRecord>) -> bool {
    forall|i: int| 0 <= i < order.len() ==> records.contains_key(#[trigger] order[i])
}

/// Whether `order` lists each node with a record in `records` once: an
/// order in which the records can be walked.
pub open spec fn is_key_order(order: Seq<u128>, records: Map<u128, NodeRecord>) -> bool {
    &&& order.no_duplicates()
    &&& forall|k: u128| order.contains(k) <==> records.contains_key(k)
}

/// The order in which the record map is walked: each node with a record
/// once, in the map's own iteration order.
pub fn record_order(records: &FxHashMap<u128, NodeRecord>) -> (r: Vec<u128>)
    ensures
        is_key_order(r@, records@),
        keys_in(r@, records@),
{
    let r = fx_keys(records);
    assert forall|i: int| 0 <= i < r@.len() implies records@.contains_key(#[trigger] r@[i]) by {
        assert(r@.contains(r@[i]));
    }
    r
}

fn apply_record(node: &mut CndNode, records: &FxHashMap<u128, NodeRecord>)
    ensures
        record_applied(records@, base_of(*old(node)), base_of(*final(node))),
        *final(node) == crate::model::with_base(*old(node), base_of(*final(node))),
{
    let id = node.id();
    match find_record(records, id) {
        Some(record) => {
            let base = node.base_mut();
            match &record.label {
                Some(label) => {
                    base.label = Some(label.clone());
                },
                None => {},
            }
            if record.state_metadata.len() > 0 {
                base.state_metadata = copy_entries(&record.state_metadata);
            }
        },
        None => {},
    }
}

/// Gives every node of the tree, in the whole reading flow, the label and
/// metadata recorded for its id.
pub fn apply_metadata(ctx: &mut ConvertContext)
    ensures
        tree_mapped(
            old(ctx).roots@,
            final(ctx).roots@,
            |a: NodeBase, b: NodeBase| record_applied(old(ctx).records@, a, b),
        ),
        final(ctx).records == old(ctx).records,
        final(ctx).location_to_id == old(ctx).location_to_id,
        final(ctx).label_to_id == old(ctx).label_to_id,
        final(ctx).footnotes == old(ctx).footnotes,
        final(ctx).footnote_loc_to_id == old(ctx).footnote_loc_to_id,
        final(ctx).bibliography == old(ctx).bibliography,
        final(ctx).bib_key_to_id == old(ctx).bib_key_to_id,
{
    apply_records(&mut ctx.roots, &ctx.records);
}

fn apply_records(nodes: &mut Vec<CndNode>, records: &FxHashMap<u128, NodeRecord>)
    ensures
        tree_mapped(old(nodes)@, final(nodes)@, |a: NodeBase, b: NodeBase| record_applied(records@, a, b)),
    decreases old(nodes)@,
{
    let ghost ok = |a: NodeBase, b: NodeBase| record_applied(records@, a, b);
    let ghost start = nodes@;
    let mut i: usize = 0;
    while i < nodes.len()
        invariant
            0 <= i <= nodes@.len(),
            nodes@.len() == start.len(),
            start == old(nodes)@,
            ok == (|a: NodeBase, b: NodeBase| record_applied(records@, a, b)),
            forall|k: int| 0 <= k < i ==> node_mapped(#[trigger] start[k], nodes@[k], ok),
            forall|k: int| i <= k < start.len() ==> #[trigger] nodes@[k] == start[k],
        decreases nodes@.len() - i,
    {
        let ghost here = nodes@[i as int];
        let node = &mut nodes[i];
        apply_record(node, records);
        match node.children_mut() {
            Some(children) => {
                assert(decreases_to!(start => here));
                apply_records(children, records);
            },
            None => {},
        }
        assert(node_mapped(here, nodes@[i as int], ok));
        i = i + 1;
    }
}

// ---------------------------------------------------------------------------
// The heading stack

/// A heading still open while walking the document: it takes the nodes
/// that follow it until a heading of its level or above.
pub struct HeadingFrame {
    pub level: i32,
    pub path: Vec<String>,
    pub node: HeadingNode,
}

/// Whether each open heading's level is below the next one's.
pub open spec fn levels_increasing(stack: Seq<HeadingFrame>) -> bool {
    forall|i: int, j: int| 0 <= i < j < stack.len() ==> #[trigger] stack[i].level < #[trigger] stack[j].level
}

/// Whether frame `g` is frame `f` with `n` appended to its heading's
/// children.
pub open spec fn with_child(f: HeadingFrame, g: HeadingFrame, n: CndNode) -> bool {
    &&& g == HeadingFrame { node: HeadingNode { children: g.node.children, ..f.node }, ..f }
    &&& g.node.children@ == f.node.children@.push(n)
}

/// Whether `n` is the heading of `frames[0]`, closed: its children are the
/// frame's, followed, when more frames were open above it, by the heading
/// closed from those.
pub open spec fn closed_chain(n: CndNode, frames: Seq<HeadingFrame>) -> bool
    decreases frames.len(),
{
    if frames.len() == 0 {
        false
    } else {
        match n {
            CndNode::Heading(h) => {
                &&& h == HeadingNode { children: h.children, ..frames[0].node }
                &&& if frames.len() == 1 {
                    h.children == frames[0].node.children
                } else {
                    &&& h.children@.len() == frames[0].node.children@.len() + 1
                    &&& h.children@.drop_last() == frames[0].node.children@
                    &&& closed_chain(h.children@.last(), frames.drop_first())
                }
            },
            _ => false,
        }
    }
}

/// Whether `b` is context `a` with only its roots changed.
pub open spec fn roots_only(a: ConvertContext, b: ConvertContext) -> bool {
    b == ConvertContext { roots: b.roots, ..a }
}

/// Appends `node` to the innermost open heading, or to the roots when no
/// heading is open.
pub fn push_node(node: CndNode, ctx: &mut ConvertContext, stack: &mut Vec<HeadingFrame>)
    ensures
        old(stack)@.len() > 0 ==> {
            &&& *final(ctx) == *old(ctx)
            &&& final(stack)@.len() == old(stack)@.len()
            &&& final(stack)@.drop_last() == old(stack)@.drop_last()
            &&& with_child(old(stack)@.last(), final(stack)@.last(), node)
        },
        old(stack)@.len() == 0 ==> {
            &&& roots_only(*old(ctx), *final(ctx))
            &&& final(ctx).roots@ == old(ctx).roots@.push(node)
            &&& final(stack)@ == old(stack)@
        },
{
    let n = stack.len();
    if n > 0 {
        let frame = &mut stack[n - 1];
        frame.node.children.push(node);
    } else {
        ctx.roots.push(node);
    }
}

/// Closes `frame`'s heading into the innermost heading still open, or into
/// the roots.
pub fn attach_heading(frame: HeadingFrame, ctx: &mut ConvertContext, stack: &mut Vec<HeadingFrame>)
    ensures
        old(stack)@.len() > 0 ==> {
            &&& *final(ctx) == *old(ctx)
            &&& final(stack)@.len() == old(stack)@.len()
            &&& final(stack)@.drop_last() == old(stack)@.drop_last()
            &&& with_child(old(stack)@.last(), final(stack)@.last(), CndNode::Heading(frame.node))
        },
        old(stack)@.len() == 0 ==> {
            &&& roots_only(*old(ctx), *final(ctx))
            &&& final(ctx).roots@ == old(ctx).roots@.push(CndNode::Heading(frame.node))
            &&& final(stack)@ == old(stack)@
        },
{
    push_node(CndNode::Heading(frame.node), ctx, stack);
}

/// Whether context `b` with open headings `t` is what closing every open
/// heading of level `level` or deeper leaves of context `a` with open
/// headings `s`: the headings below `level` stay open, untouched but for
/// the innermost of them, which takes the closed headings, nested each into
/// the one below it, as its last child; with none left open, the closed
/// headings go to the roots instead; with none to close, nothing changes.
pub open spec fn headings_closed(
    level: i32,
    a: ConvertContext,
    s: Seq<HeadingFrame>,
    b: ConvertContext,
    t: Seq<HeadingFrame>,
) -> bool {
    &&& levels_increasing(t)
    &&& t.len() <= s.len()
    &&& forall|i: int| 0 <= i < t.len() ==> (#[trigger] s[i]).level < level
    &&& forall|i: int| 0 <= i < t.len() ==> (#[trigger] t[i]).level == s[i].level
    &&& forall|i: int| t.len() <= i < s.len() ==> (#[trigger] s[i]).level >= level
    &&& t.len() == s.len() ==> b == a && t == s
    &&& t.len() < s.len() ==> {
        let k = t.len() as int;
        let closed = s.subrange(k, s.len() as int);
        if k > 0 {
            &&& b == a
            &&& t.drop_last() == s.take(k - 1)
            &&& t.last() == HeadingFrame {
                node: HeadingNode { children: t.last().node.children, ..s[k - 1].node },
                ..s[k - 1]
            }
            &&& t.last().node.children@.drop_last() == s[k - 1].node.children@
            &&& t.last().node.children@.len() == s[k - 1].node.children@.len() + 1
            &&& closed_chain(t.last().node.children@.last(), closed)
        } else {
            &&& roots_only(a, b)
            &&& b.roots@.drop_last() == a.roots@
            &&& b.roots@.len() == a.roots@.len() + 1
            &&& closed_chain(b.roots@.last(), closed)
        }
    }
}

/// Closes every open heading of level `level` or deeper, each into the one
/// below it and the outermost of them into the heading left open, or into
/// the roots.
pub fn close_headings(level: i32, ctx: &mut ConvertContext, stack: &mut Vec<HeadingFrame>)
    requires
        levels_increasing(old(stack)@),
    ensures
        headings_closed(level, *old(ctx), old(stack)@, *final(ctx), final(stack)@),
{
    let ghost orig = stack@;
    let ghost orig_ctx = *ctx;
    let ghost n = orig.len();
    while stack.len() > 0 && stack[stack.len() - 1].level >= level
        invariant
            levels_increasing(orig),
            n == orig.len(),
            stack@.len() <= n,
            forall|i: int| stack@.len() <= i < n ==> (#[trigger] orig[i]).level >= level,
            forall|i: int| 0 <= i < stack@.len() ==> (#[trigger] stack@[i]).level == orig[i].level,
            stack@.len() == n ==> *ctx == orig_ctx && stack@ == orig,
            stack@.len() < n ==> {
                let k = stack@.len() as int;
                let closed = orig.subrange(k, n as int);
                if k > 0 {
                    &&& *ctx == orig_ctx
                    &&& stack@.drop_last() == orig.take(k - 1)
                    &&& stack@.last() == HeadingFrame {
                        node: HeadingNode { children: stack@.last().node.children, ..orig[k - 1].node },
                        ..orig[k - 1]
                    }
                    &&& stack@.last().node.children@.drop_last() == orig[k - 1].node.children@
                    &&& stack@.last().node.children@.len() == orig[k - 1].node.children@.len() + 1
                    &&& closed_chain(stack@.last().node.children@.last(), closed)
                } else {
                    &&& roots_only(orig_ctx, *ctx)
                    &&& ctx.roots@.drop_last() == orig_ctx.roots@
                    &&& ctx.roots@.len() == orig_ctx.roots@.len() + 1
                    &&& closed_chain(ctx.roots@.last(), closed)
                }
            },
        decreases stack@.len(),
    {
        let ghost j = stack@.len() as int;
        let ghost before = stack@;
        let frame = stack.pop().unwrap();
        proof {
            let closed = orig.subrange(j - 1, n as int);
            let h = frame.node;
            if j == n {
                assert(frame == orig[j - 1]);
            } else {
                assert(closed.drop_first() =~= orig.subrange(j, n as int));
            }
            assert(closed[0] == orig[j - 1]);
            assert(closed_chain(CndNode::Heading(h), closed));
            assert(stack@ == before.drop_last());
        }
        attach_heading(frame, ctx, stack);
        proof {
            assert forall|i: int| 0 <= i < stack@.len() implies (#[trigger] stack@[i]).level == orig[i].level by {
                assert(before[i].level == orig[i].level);
                if i < stack@.len() - 1 {
                    assert(stack@.drop_last()[i] == stack@[i]);
                    assert(before.drop_last().drop_last()[i] == before[i]);
                }
            }
            if j - 1 > 0 {
                assert(before[j - 2] == orig[j - 2]) by {
                    if j < n {
                        assert(before.drop_last() == orig.take(j - 1));
                        assert(orig.take(j - 1)[j - 2] == orig[j - 2]);
                    } else {
                        assert(before == orig);
                    }
                }
                assert(stack@.drop_last() =~= orig.take(j - 2)) by {
                    if j < n {
                        assert(before.drop_last() == orig.take(j - 1));
                    } else {
                        assert(before == orig);
                    }
                }
            }
        }
    }
    proof {
        assert forall|i: int, j: int| 0 <= i < j < stack@.len() implies #[trigger] stack@[i].level
            < #[trigger] stack@[j].level by {
            assert(orig[i].level < orig[j].level);
        }
        assert forall|i: int| 0 <= i < stack@.len() implies (#[trigger] orig[i]).level < level by {
            let k = stack@.len() - 1;
            assert(stack@[k].level < level);
            if i < k {
                assert(orig[i].level < orig[k].level);
            }
        }
    }
}

/// Opens heading `frame`: closes the open headings of its level or deeper,
/// then leaves it open above the rest.
pub fn open_heading(frame: HeadingFrame, ctx: &mut ConvertContext, stack: &mut Vec<HeadingFrame>)
    requires
        levels_increasing(old(stack)@),
    ensures
        levels_increasing(final(stack)@),
        final(stack)@.len() >= 1,
        final(stack)@.last() == frame,
        headings_closed(frame.level, *old(ctx), old(stack)@, *final(ctx), final(stack)@.drop_last()),
        forall|i: int| 0 <= i < final(stack)@.len() - 1 ==> (#[trigger] final(stack)@[i]).level == old(stack)@[i].level,
{
    let level = frame.level;
    close_headings(level, ctx, stack);
    let ghost mid = stack@;
    stack.push(frame);
    assert(stack@.drop_last() == mid);
    assert forall|i: int, j: int| 0 <= i < j < stack@.len() implies #[trigger] stack@[i].level
        < #[trigger] stack@[j].level by {
        if j < mid.len() {
            assert(mid[i].level < mid[j].level);
        } else {
            assert(old(stack)@[i].level < level);
            assert(mid[i].level == old(stack)@[i].level);
        }
    }
    assert forall|i: int| 0 <= i < stack@.len() - 1 implies (#[trigger] stack@[i]).level == old(stack)@[i].level by {
        if i < mid.len() - 1 {
            assert(mid.drop_last()[i] == mid[i]);
        }
    }
}

/// Closes every heading still open, the outermost into the roots.
pub fn finalize_headings(ctx: &mut ConvertContext, stack: &mut Vec<HeadingFrame>)
    requires
        levels_increasing(old(stack)@),
    ensures
        final(stack)@.len() == 0,
        old(stack)@.len() == 0 ==> *final(ctx) == *old(ctx),
        old(stack)@.len() > 0 ==> {
            &&& roots_only(*old(ctx), *final(ctx))
            &&& final(ctx).roots@.drop_last() == old(ctx).roots@
            &&& final(ctx).roots@.len() == old(ctx).roots@.len() + 1
            &&& closed_chain(final(ctx).roots@.last(), old(stack)@)
        },
{
    close_headings(i32::MIN, ctx, stack);
    assert(old(stack)@.subrange(0, old(stack)@.len() as int) == old(stack)@);
}

/// The path segment of a heading: its number, a space and its text, or its
/// text alone when it is not numbered.
pub open spec fn segment_of(numbering: Seq<char>, text: Seq<char>) -> Seq<char> {
    if numbering.len() == 0 {
        text
    } else {
        numbering + seq![' '] + text
    }
}

/// The path segment of a heading with number `numbering` and text `text`.
pub fn heading_segment(numbering: &str, text: &str) -> (r: String)
    ensures
        r@ == segment_of(numbering@, text@),
{
    let mut out: Vec<char> = Vec::new();
    if !numbering.is_empty() {
        push_str(&mut out, numbering);
        out.push(' ');
    }
    push_str(&mut out, text);
    proof {
        if numbering@.len() == 0 {
            assert(out@ =~= text@);
        }
    }
    string_from_chars(&out)
}

/// The last segment of an open heading's path, or the empty text.
pub open spec fn last_segment(f: HeadingFrame) -> Seq<char> {
    if f.path@.len() > 0 {
        f.path@.last()@
    } else {
        Seq::empty()
    }
}

/// The path of a heading opened above `stack`: the last segment of each
/// open heading, outermost first, then its own `segment`.
pub fn heading_path(stack: &Vec<HeadingFrame>, segment: String) -> (r: Vec<String>)
    ensures
        r@.len() == stack@.len() + 1,
        forall|i: int| 0 <= i < stack@.len() ==> (#[trigger] r@[i])@ == last_segment(stack@[i]),
        r@.last() == segment,
{
    let mut out: Vec<String> = Vec::new();
    let mut i: usize = 0;
    while i < stack.len()
        invariant
            0 <= i <= stack@.len(),
            out@.len() == i,
            forall|j: int| 0 <= j < i ==> (#[trigger] out@[j])@ == last_segment(stack@[j]),
        decreases stack@.len() - i,
    {
        let path = &stack[i].path;
        let n = path.len();
        if n > 0 {
            let last = path[n - 1].clone();
            assert(last@ == last_segment(stack@[i as int]));
            out.push(last);
        } else {
            let empty = String::new();
            assert(empty@ == last_segment(stack@[i as int]));
            out.push(empty);
        }
        i += 1;
    }
    out.push(segment);
    out
}

// ---------------------------------------------------------------------------
// Records of emitted nodes

/// The labels of `s`, distinct, in ascending order, as their texts.
pub open spec fn sorted_labels(s: Seq<String>) -> Seq<Seq<char>>
    decreases s.len(),
{
    if s.len() == 0 {
        Seq::empty()
    } else {
        insert_name(sorted_labels(s.drop_last()), s.last()@)
    }
}

/// The labels referenced in a node's content, each once, ordered by their
/// text.
pub fn collect_ref_targets(labels: &Vec<String>) -> (r: Vec<String>)
    ensures
        texts_of(r@) == sorted_labels(labels@),
        ascending(texts_of(r@)),
        forall|t: Seq<char>|
            texts_of(r@).contains(t) <==> exists|i: int| 0 <= i < labels@.len() && (#[trigger] labels@[i])@ == t,
{
    let mut out: Vec<String> = Vec::new();
    let mut i: usize = 0;
    assert(texts_of(out@) =~= Seq::empty());
    while i < labels.len()
        invariant
            0 <= i <= labels@.len(),
            texts_of(out@) == sorted_labels(labels@.take(i as int)),
            ascending(texts_of(out@)),
            forall|t: Seq<char>|
                texts_of(out@).contains(t) <==> exists|j: int| 0 <= j < i && (#[trigger] labels@[j])@ == t,
        decreases labels@.len() - i,
    {
        assert(labels@.take(i + 1).drop_last() == labels@.take(i as int));
        assert(labels@.take(i + 1).last() == labels@[i as int]);
        let ghost before = texts_of(out@);
        insert_sorted_text(&mut out, labels[i].clone());
        proof {
            let n = labels@[i as int]@;
            lemma_insert_name_members(before, n);
            assert forall|t: Seq<char>| texts_of(out@).contains(t) <==> exists|j: int|
                0 <= j < i + 1 && (#[trigger] labels@[j])@ == t by {
                if texts_of(out@).contains(t) {
                    let k = choose|k: int| 0 <= k < texts_of(out@).len() && texts_of(out@)[k] == t;
                    if t != n {
                        let w = choose|w: int| 0 <= w < before.len() && before[w] == texts_of(out@)[k];
                        assert(before.contains(t));
                    }
                }
                if exists|j: int| 0 <= j < i + 1 && (#[trigger] labels@[j])@ == t {
                    let j = choose|j: int| 0 <= j < i + 1 && (#[trigger] labels@[j])@ == t;
                    if j < i {
                        assert(before.contains(t));
                        let w = choose|w: int| 0 <= w < before.len() && before[w] == t;
                        assert(texts_of(out@).contains(before[w]));
                    }
                }
            }
        }
        i += 1;
    }
    assert(labels@.take(i as int) == labels@);
    out
}

/// The distinct values of `s`, in order of first occurrence.
pub open spec fn distinct_in_order(s: Seq<u128>) -> Seq<u128>
    decreases s.len(),
{
    if s.len() == 0 {
        Seq::empty()
    } else {
        let prev = distinct_in_order(s.drop_last());
        if prev.contains(s.last()) {
            prev
        } else {
            prev.push(s.last())
        }
    }
}

/// The span of the first citation marker at location `loc`.
pub open spec fn cite_span(ms: Seq<ExtractedMarker>, loc: u128) -> Option<(i64, i64)>
    decreases ms.len(),
{
    if ms.len() == 0 {
        None
    } else if ms[0].kind matches MarkerKind::Cite(l) && l == loc {
        Some((ms[0].start, ms[0].end))
    } else {
        cite_span(ms.drop_first(), loc)
    }
}

/// The span of the first footnote marker at location `loc`.
pub open spec fn footnote_span(ms: Seq<ExtractedMarker>, loc: u128) -> Option<(i64, i64)>
    decreases ms.len(),
{
    if ms.len() == 0 {
        None
    } else if ms[0].kind matches MarkerKind::Footnote(l) && l == loc {
        Some((ms[0].start, ms[0].end))
    } else {
        footnote_span(ms.drop_first(), loc)
    }
}

/// The cross-reference markers among `ms`, with their spans, in order.
pub open spec fn ref_markers_of(ms: Seq<ExtractedMarker>) -> Seq<(String, (i64, i64))>
    decreases ms.len(),
{
    if ms.len() == 0 {
        Seq::empty()
    } else {
        let prev = ref_markers_of(ms.drop_last());
        match ms.last().kind {
            MarkerKind::Ref(l) => prev.push((l, (ms.last().start, ms.last().end))),
            _ => prev,
        }
    }
}

fn find_cite_span(ms: &Vec<ExtractedMarker>, loc: u128) -> (r: Option<(i64, i64)>)
    ensures
        r == cite_span(ms@, loc),
{
    let mut i: usize = 0;
    assert(ms@.skip(0) == ms@);
    while i < ms.len()
        invariant
            0 <= i <= ms@.len(),
            cite_span(ms@, loc) == cite_span(ms@.skip(i as int), loc),
        decreases ms@.len() - i,
    {
        assert(ms@.skip(i as int)[0] == ms@[i as int]);
        assert(ms@.skip(i as int).drop_first() == ms@.skip(i + 1));
        match ms[i].kind {
            MarkerKind::Cite(l) => {
                if l == loc {
                    return Some((ms[i].start, ms[i].end));
                }
            },
            _ => {},
        }
        i += 1;
    }
    None
}

fn find_footnote_span(ms: &Vec<ExtractedMarker>, loc: u128) -> (r: Option<(i64, i64)>)
    ensures
        r == footnote_span(ms@, loc),
{
    let mut i: usize = 0;
    assert(ms@.skip(0) == ms@);
    while i < ms.len()
        invariant
            0 <= i <= ms@.len(),
            footnote_span(ms@, loc) == footnote_span(ms@.skip(i as int), loc),
        decreases ms@.len() - i,
    {
        assert(ms@.skip(i as int)[0] == ms@[i as int]);
        assert(ms@.skip(i as int).drop_first() == ms@.skip(i + 1));
        match ms[i].kind {
            MarkerKind::Footnote(l) => {
                if l == loc {
                    return Some((ms[i].start, ms[i].end));
                }
            },
            _ => {},
        }
        i += 1;
    }
    None
}

/// The footnote marker locations of `locs`, each once, in order of first
/// occurrence.
pub fn collect_footnote_locs(locs: &Vec<u128>) -> (r: Vec<u128>)
    ensures
        r@ == distinct_in_order(locs@),
{
    let mut out: Vec<u128> = Vec::new();
    let mut i: usize = 0;
    while i < locs.len()
        invariant
            0 <= i <= locs@.len(),
            out@ == distinct_in_order(locs@.take(i as int)),
        decreases locs@.len() - i,
    {
        assert(locs@.take(i + 1).drop_last() == locs@.take(i as int));
        assert(locs@.take(i + 1).last() == locs@[i as int]);
        let x = locs[i];
        let mut seen = false;
        let mut k: usize = 0;
        while k < out.len()
            invariant
                0 <= k <= out@.len(),
                x == locs@[i as int],
                seen == exists|j: int| 0 <= j < k && out@[j] == x,
            decreases out@.len() - k,
        {
            if out[k] == x {
                seen = true;
            }
            k += 1;
        }
        if !seen {
            out.push(x);
        }
        i += 1;
    }
    assert(locs@.take(i as int) == locs@);
    out
}

/// The record of a node: its location and label, the labels its content
/// references (each once, ordered by text), its footnote markers (each once,
/// in order) and citation markers with the spans the flat-text walk found
/// for them (the first marker at each location), its cross-reference
/// markers with their spans, and its metadata.
pub fn make_record(
    location: Option<u128>,
    label: Option<String>,
    referenced: &Vec<String>,
    footnote_markers: &Vec<u128>,
    cite_markers: Vec<CiteMarker>,
    markers: &Vec<ExtractedMarker>,
    state_metadata: Vec<(String, MetaValue)>,
) -> (r: NodeRecord)
    ensures
        r.location == location,
        r.label == label,
        texts_of(r.ref_targets@) == sorted_labels(referenced@),
        r.footnote_locs@.len() == distinct_in_order(footnote_markers@).len(),
        forall|i: int|
            0 <= i < r.footnote_locs@.len() ==> #[trigger] r.footnote_locs@[i] == (
                distinct_in_order(footnote_markers@)[i],
                footnote_span(markers@, distinct_in_order(footnote_markers@)[i]),
            ),
        r.cite_markers@.len() == cite_markers@.len(),
        forall|i: int|
            0 <= i < cite_markers@.len() ==> #[trigger] r.cite_markers@[i] == (CiteMarker {
                span: cite_span(markers@, cite_markers@[i].loc),
                ..cite_markers@[i]
            }),
        r.ref_markers@ == ref_markers_of(markers@),
        r.state_metadata == state_metadata,
{
    let ref_targets = collect_ref_targets(referenced);
    let locs = collect_footnote_locs(footnote_markers);
    let mut footnote_locs: Vec<(u128, Option<(i64, i64)>)> = Vec::new();
    let mut i: usize = 0;
    while i < locs.len()
        invariant
            0 <= i <= locs@.len(),
            footnote_locs@.len() == i,
            forall|k: int|
                0 <= k < i ==> #[trigger] footnote_locs@[k] == (locs@[k], footnote_span(markers@, locs@[k])),
        decreases locs@.len() - i,
    {
        let span = find_footnote_span(markers, locs[i]);
        footnote_locs.push((locs[i], span));
        i += 1;
    }
    let ghost cites = cite_markers@;
    let total = cite_markers.len();
    let mut rest = cite_markers;
    let mut cited: Vec<CiteMarker> = Vec::new();
    let mut k: usize = 0;
    while rest.len() > 0
        invariant
            0 <= k <= cites.len(),
            total == cites.len(),
            rest@ == cites.skip(k as int),
            cited@.len() == k,
            forall|j: int|
                0 <= j < k ==> #[trigger] cited@[j] == (CiteMarker { span: cite_span(markers@, cites[j].loc), ..cites[j] }),
        decreases rest@.len(),
    {
        assert(k < cites.len());
        let mut c = rest.remove(0);
        assert(c == cites[k as int]);
        c.span = find_cite_span(markers, c.loc);
        cited.push(c);
        k += 1;
        assert(rest@ =~= cites.skip(k as int));
    }
    let mut ref_markers: Vec<(String, (i64, i64))> = Vec::new();
    let mut m: usize = 0;
    while m < markers.len()
        invariant
            0 <= m <= markers@.len(),
            ref_markers@ == ref_markers_of(markers@.take(m as int)),
        decreases markers@.len() - m,
    {
        assert(markers@.take(m + 1).drop_last() == markers@.take(m as int));
        assert(markers@.take(m + 1).last() == markers@[m as int]);
        match &markers[m].kind {
            MarkerKind::Ref(l) => {
                ref_markers.push((l.clone(), (markers[m].start, markers[m].end)));
            },
            _ => {},
        }
        m += 1;
    }
    assert(markers@.take(m as int) == markers@);
    NodeRecord {
        location,
        label,
        ref_targets,
        footnote_locs,
        cite_markers: cited,
        ref_markers,
        state_metadata,
    }
}

// ---------------------------------------------------------------------------
// Pages

/// The location of a node whose introspection location is `loc`: the page
/// `loc` is on, the first page when it has none.
pub open spec fn page_of(pages: Map<u128, usize>, loc: u128) -> NodeLocation {
    NodeLocation {
        page: if pages.contains_key(loc) {
            pages[loc] as i32
        } else {
            1i32
        },
    }
}

/// The page each recorded node begins on, for the records that have a
/// location.
pub open spec fn page_map(records: Map<u128, NodeRecord>, pages: Map<u128, usize>) -> Map<u128, NodeLocation> {
    Map::new(
        |id: u128| records.contains_key(id) && records[id].location is Some,
        |id: u128| page_of(pages, records[id].location.unwrap()),
    )
}

/// Assigns to emitted nodes the page they begin on.
pub struct LocationAssigner {
    /// The page of each introspection location.
    pub pages: FxHashMap<u128, usize>,
    pub records: FxHashMap<u128, NodeRecord>,
}

impl LocationAssigner {
    pub fn new(pages: FxHashMap<u128, usize>, records: FxHashMap<u128, NodeRecord>) -> (r: Self)
        ensures
            r.pages == pages,
            r.records == records,
    {
        LocationAssigner { pages, records }
    }

    /// Sets the starting page of every node of the tree whose record has a
    /// location.
    pub fn assign_all(&self, nodes: &mut Vec<CndNode>)
        ensures
            tree_mapped(
                old(nodes)@,
                final(nodes)@,
                |a: NodeBase, b: NodeBase| page_assigned(page_map(self.records@, self.pages@), a, b),
            ),
    {
        let ghost target = page_map(self.records@, self.pages@);
        let ids = fx_keys(&self.records);
        let mut locations: FxHashMap<u128, NodeLocation> = FxHashMap::default();
        let mut k: usize = 0;
        while k < ids.len()
            invariant
                0 <= k <= ids@.len(),
                target == page_map(self.records@, self.pages@),
                forall|x: u128| ids@.contains(x) <==> self.records@.contains_key(x),
                forall|x: u128|
                    #[trigger] locations@.contains_key(x) <==> (ids@.take(k as int).contains(x)
                        && target.contains_key(x)),
                forall|x: u128| #[trigger] locations@.contains_key(x) ==> locations@[x] == target[x],
            decreases ids@.len() - k,
        {
            let id = ids[k];
            assert(self.records@.contains_key(id)) by {
                assert(ids@.contains(id));
            }
            assert forall|x: u128| ids@.take(k + 1).contains(x) <==> (ids@.take(k as int).contains(x) || x == id) by {
                if ids@.take(k + 1).contains(x) {
                    let w = choose|w: int| 0 <= w < k + 1 && #[trigger] ids@.take(k + 1)[w] == x;
                    if w < k {
                        assert(ids@.take(k as int)[w] == x);
                    }
                }
                if ids@.take(k as int).contains(x) {
                    let w = choose|w: int| 0 <= w < k && #[trigger] ids@.take(k as int)[w] == x;
                    assert(ids@.take(k + 1)[w] == x);
                }
                if x == id {
                    assert(ids@.take(k + 1)[k as int] == x);
                }
            }
            let ghost before = locations@;
            let record = fx_get_ref(&self.records, &id).unwrap();
            match record.location {
                Some(loc) => {
                    let page: i32 = match fx_get(&self.pages, &loc) {
                        Some(p) => p as i32,
                        None => 1,
                    };
                    fx_insert(&mut locations, id, NodeLocation { page });
                },
                None => {},
            }
            assert forall|x: u128|
                #[trigger] locations@.contains_key(x) <==> (ids@.take(k + 1).contains(x) && target.contains_key(x)) by {
                if x != id {
                    assert(locations@.contains_key(x) == before.contains_key(x));
                }
            }
            k += 1;
        }
        assert(ids@.take(k as int) == ids@);
        assert(locations@ =~= target);
        assign_locations(nodes, &locations);
    }
}

} // verus!
