//! Cross-reference resolution: finding which node a label names, and
//! attaching a forward `refs` edge to the node holding the reference.
//!
//! What the document's introspector knows of a label is taken as plain
//! values (a [`LabelTarget`]), computed by the caller.

use vstd::prelude::*;

use rustc_hash::FxHashMap;

use crate::convert::{is_key_order, keys_in, record_order, walk_of, ConvertContext, NodeRecord};
use crate::fmt::str_eq;
use crate::fxmap::{fx_get, fx_get_ref, fx_insert, fx_remove};
use crate::model::{base_of, CndNode, HeadingNode, NodeRef, ParagraphNode};
use crate::tree::{contains_id, edit_node, edited, NodeEdit};

verus! {

// ---------------------------------------------------------------------------
// Nodes in reading order

/// The ids of the paragraphs of `nodes`, in reading order, descending into
/// headings and figure wrappers.
pub open spec fn paragraph_ids(nodes: Seq<CndNode>) -> Seq<u128>
    decreases nodes,
{
    if nodes.len() == 0 {
        Seq::empty()
    } else {
        paragraph_ids(nodes.drop_last()) + node_paragraph_ids(nodes.last())
    }
}

/// The ids of the paragraphs of one node's reading flow.
pub open spec fn node_paragraph_ids(node: CndNode) -> Seq<u128>
    decreases node,
{
    match node {
        CndNode::Paragraph(n) => seq![n.base.id],
        CndNode::Heading(n) => paragraph_ids(n.children@),
        CndNode::Figure(n) => paragraph_ids(n.children@),
        _ => Seq::empty(),
    }
}

/// Appends the paragraph ids of `nodes` to `out`.
pub fn walk_paragraph_ids(nodes: &Vec<CndNode>, out: &mut Vec<u128>)
    ensures
        final(out)@ == old(out)@ + paragraph_ids(nodes@),
    decreases nodes@,
{
    let mut i: usize = 0;
    while i < nodes.len()
        invariant
            0 <= i <= nodes@.len(),
            out@ == old(out)@ + paragraph_ids(nodes@.take(i as int)),
        decreases nodes@.len() - i,
    {
        assert(nodes@.take(i + 1).drop_last() == nodes@.take(i as int));
        let ghost here = nodes@[i as int];
        assert(decreases_to!(nodes@ => here));
        match &nodes[i] {
            CndNode::Paragraph(n) => out.push(n.base.id),
            CndNode::Heading(n) => walk_paragraph_ids(&n.children, out),
            CndNode::Figure(n) => walk_paragraph_ids(&n.children, out),
            _ => {},
        }
        assert(nodes@.take(i + 1).last() == here);
        assert(out@ =~= old(out)@ + paragraph_ids(nodes@.take(i as int)) + node_paragraph_ids(here));
        i += 1;
    }
    assert(nodes@.take(i as int) == nodes@);
}

/// The paragraph ids of `nodes`, in reading order.
pub fn paragraph_ids_from_nodes(nodes: &Vec<CndNode>) -> (r: Vec<u128>)
    ensures
        r@ == paragraph_ids(nodes@),
{
    let mut out: Vec<u128> = Vec::new();
    walk_paragraph_ids(nodes, &mut out);
    assert(out@ =~= paragraph_ids(nodes@));
    out
}

/// The ids of the headings of `nodes`, in reading order, descending into
/// headings only.
pub open spec fn heading_ids(nodes: Seq<CndNode>) -> Seq<u128>
    decreases nodes,
{
    if nodes.len() == 0 {
        Seq::empty()
    } else {
        heading_ids(nodes.drop_last()) + node_heading_ids(nodes.last())
    }
}

/// The ids of a node's heading outline: itself and the headings under it.
pub open spec fn node_heading_ids(node: CndNode) -> Seq<u128>
    decreases node,
{
    match node {
        CndNode::Heading(n) => seq![n.base.id] + heading_ids(n.children@),
        _ => Seq::empty(),
    }
}

/// Appends the heading ids of `nodes` to `out`.
pub fn walk_heading_ids(nodes: &Vec<CndNode>, out: &mut Vec<u128>)
    ensures
        final(out)@ == old(out)@ + heading_ids(nodes@),
    decreases nodes@,
{
    let mut i: usize = 0;
    while i < nodes.len()
        invariant
            0 <= i <= nodes@.len(),
            out@ == old(out)@ + heading_ids(nodes@.take(i as int)),
        decreases nodes@.len() - i,
    {
        assert(nodes@.take(i + 1).drop_last() == nodes@.take(i as int));
        let ghost here = nodes@[i as int];
        assert(decreases_to!(nodes@ => here));
        match &nodes[i] {
            CndNode::Heading(n) => {
                out.push(n.base.id);
                walk_heading_ids(&n.children, out);
            },
            _ => {},
        }
        assert(nodes@.take(i + 1).last() == here);
        assert(out@ =~= old(out)@ + heading_ids(nodes@.take(i as int)) + node_heading_ids(here));
        i += 1;
    }
    assert(nodes@.take(i as int) == nodes@);
}

/// The heading ids of `nodes`, in reading order.
pub fn heading_ids_from_nodes(nodes: &Vec<CndNode>) -> (r: Vec<u128>)
    ensures
        r@ == heading_ids(nodes@),
{
    let mut out: Vec<u128> = Vec::new();
    walk_heading_ids(nodes, &mut out);
    assert(out@ =~= heading_ids(nodes@));
    out
}

/// The id of the first table or figure wrapper of `nodes` in reading
/// order, descending into headings.
pub open spec fn first_table(nodes: Seq<CndNode>) -> Option<u128>
    decreases nodes,
{
    if nodes.len() == 0 {
        None
    } else {
        match node_first_table(nodes[0]) {
            Some(id) => Some(id),
            None => first_table(nodes.drop_first()),
        }
    }
}

/// The id of the first table or figure wrapper of one node.
pub open spec fn node_first_table(node: CndNode) -> Option<u128>
    decreases node,
{
    match node {
        CndNode::Table(n) => Some(n.base.id),
        CndNode::Figure(n) => Some(n.base.id),
        CndNode::Heading(n) => first_table(n.children@),
        _ => None,
    }
}

/// The first table or figure wrapper of `nodes`, descending into headings:
/// what a label on a figure names when no record carries it.
pub fn find_labeled_table(nodes: &Vec<CndNode>) -> (r: Option<u128>)
    ensures
        r == first_table(nodes@),
    decreases nodes@,
{
    let mut i: usize = 0;
    assert(nodes@.skip(0) == nodes@);
    while i < nodes.len()
        invariant
            0 <= i <= nodes@.len(),
            first_table(nodes@) == first_table(nodes@.skip(i as int)),
        decreases nodes@.len() - i,
    {
        let ghost here = nodes@[i as int];
        assert(decreases_to!(nodes@ => here));
        assert(nodes@.skip(i as int)[0] == here);
        assert(nodes@.skip(i as int).drop_first() == nodes@.skip(i + 1));
        let node = &nodes[i];
        assert(node_first_table(here) == node_first_table(*node));
        match node {
            CndNode::Table(n) => return Some(n.base.id),
            CndNode::Figure(n) => return Some(n.base.id),
            CndNode::Heading(n) => {
                let found = find_labeled_table(&n.children);
                if found.is_some() {
                    return found;
                }
            },
            _ => {},
        }
        i += 1;
    }
    None
}

/// The id of the last paragraph of `nodes` in reading order, descending
/// into headings only.
pub open spec fn last_paragraph(nodes: Seq<CndNode>) -> Option<u128>
    decreases nodes,
{
    if nodes.len() == 0 {
        None
    } else {
        match node_last_paragraph(nodes.last()) {
            Some(id) => Some(id),
            None => last_paragraph(nodes.drop_last()),
        }
    }
}

/// The id of the last paragraph of one node, descending into headings.
pub open spec fn node_last_paragraph(node: CndNode) -> Option<u128>
    decreases node,
{
    match node {
        CndNode::Paragraph(n) => Some(n.base.id),
        CndNode::Heading(n) => last_paragraph(n.children@),
        _ => None,
    }
}

/// For the first heading of `nodes` with id `target` (descending into
/// headings only), the last paragraph under it.
pub open spec fn under_heading(nodes: Seq<CndNode>, target: u128) -> Option<Option<u128>>
    decreases nodes,
{
    if nodes.len() == 0 {
        None
    } else {
        match node_under_heading(nodes[0], target) {
            Some(r) => Some(r),
            None => under_heading(nodes.drop_first(), target),
        }
    }
}

/// [`under_heading`] for one node.
pub open spec fn node_under_heading(node: CndNode, target: u128) -> Option<Option<u128>>
    decreases node,
{
    match node {
        CndNode::Heading(n) => if n.base.id == target {
            Some(last_paragraph(n.children@))
        } else {
            under_heading(n.children@, target)
        },
        _ => None,
    }
}

fn find_last_paragraph(nodes: &Vec<CndNode>) -> (r: Option<u128>)
    ensures
        r == last_paragraph(nodes@),
    decreases nodes@,
{
    let mut last: Option<u128> = None;
    let mut i: usize = 0;
    while i < nodes.len()
        invariant
            0 <= i <= nodes@.len(),
            last == last_paragraph(nodes@.take(i as int)),
        decreases nodes@.len() - i,
    {
        let ghost here = nodes@[i as int];
        assert(decreases_to!(nodes@ => here));
        assert(nodes@.take(i + 1).drop_last() == nodes@.take(i as int));
        assert(nodes@.take(i + 1).last() == here);
        let node = &nodes[i];
        assert(node_last_paragraph(here) == node_last_paragraph(*node));
        match node {
            CndNode::Paragraph(n) => {
                last = Some(n.base.id);
            },
            CndNode::Heading(n) => {
                let inner = find_last_paragraph(&n.children);
                if inner.is_some() {
                    last = inner;
                }
            },
            _ => {},
        }
        i += 1;
    }
    assert(nodes@.take(i as int) == nodes@);
    last
}

fn walk_under_heading(nodes: &Vec<CndNode>, target: u128) -> (r: Option<Option<u128>>)
    ensures
        r == under_heading(nodes@, target),
    decreases nodes@,
{
    let mut i: usize = 0;
    assert(nodes@.skip(0) == nodes@);
    while i < nodes.len()
        invariant
            0 <= i <= nodes@.len(),
            under_heading(nodes@, target) == under_heading(nodes@.skip(i as int), target),
        decreases nodes@.len() - i,
    {
        let ghost here = nodes@[i as int];
        assert(decreases_to!(nodes@ => here));
        assert(nodes@.skip(i as int)[0] == here);
        assert(nodes@.skip(i as int).drop_first() == nodes@.skip(i + 1));
        let node = &nodes[i];
        assert(node_under_heading(here, target) == node_under_heading(*node, target));
        match node {
            CndNode::Heading(n) => {
                if n.base.id == target {
                    return Some(find_last_paragraph(&n.children));
                }
                let found = walk_under_heading(&n.children, target);
                if found.is_some() {
                    return found;
                }
            },
            _ => {},
        }
        i += 1;
    }
    None
}

/// The last paragraph under the heading `heading_id`, descending into
/// nested headings; `None` when the heading holds no paragraph or is not
/// in the outline.
pub fn last_paragraph_under_heading(nodes: &Vec<CndNode>, heading_id: u128) -> (r: Option<u128>)
    ensures
        r == (match under_heading(nodes@, heading_id) {
            Some(p) => p,
            None => None,
        }),
{
    match walk_under_heading(nodes, heading_id) {
        Some(p) => p,
        None => None,
    }
}

// ---------------------------------------------------------------------------
// Laws of the reading flow

/// The ids of the paragraphs of `nodes`, in reading order, descending into
/// headings only.
pub open spec fn heading_flow_paragraphs(nodes: Seq<CndNode>) -> Seq<u128>
    decreases nodes,
{
    if nodes.len() == 0 {
        Seq::empty()
    } else {
        heading_flow_paragraphs(nodes.drop_last()) + node_heading_flow_paragraphs(nodes.last())
    }
}

/// [`heading_flow_paragraphs`] of one node.
pub open spec fn node_heading_flow_paragraphs(node: CndNode) -> Seq<u128>
    decreases node,
{
    match node {
        CndNode::Paragraph(n) => seq![n.base.id],
        CndNode::Heading(n) => heading_flow_paragraphs(n.children@),
        _ => Seq::empty(),
    }
}

/// The last element of `s`, if it has one.
pub open spec fn last_of(s: Seq<u128>) -> Option<u128> {
    if s.len() == 0 {
        None
    } else {
        Some(s[s.len() - 1])
    }
}

proof fn lemma_last_paragraph_flow(nodes: Seq<CndNode>)
    ensures
        last_paragraph(nodes) == last_of(heading_flow_paragraphs(nodes)),
    decreases nodes,
{
    if nodes.len() > 0 {
        let rest = nodes.drop_last();
        let n = nodes.last();
        lemma_last_paragraph_flow(rest);
        match n {
            CndNode::Heading(h) => {
                assert(decreases_to!(nodes => n));
                lemma_last_paragraph_flow(h.children@);
                assert(node_last_paragraph(n) == last_paragraph(h.children@));
                assert(node_heading_flow_paragraphs(n) == heading_flow_paragraphs(h.children@));
            },
            CndNode::Paragraph(q) => {
                assert(node_last_paragraph(n) == Some(q.base.id));
                assert(node_heading_flow_paragraphs(n) == seq![q.base.id]);
            },
            _ => {
                assert(node_last_paragraph(n) is None);
                assert(node_heading_flow_paragraphs(n) == Seq::<u128>::empty());
            },
        }
        assert(node_last_paragraph(n) == last_of(node_heading_flow_paragraphs(n)));
        assert(last_paragraph(nodes) == match node_last_paragraph(n) {
            Some(id) => Some(id),
            None => last_paragraph(rest),
        });
        let a = heading_flow_paragraphs(rest);
        let b = node_heading_flow_paragraphs(n);
        assert(heading_flow_paragraphs(nodes) == a + b);
        if b.len() > 0 {
            assert((a + b)[(a + b).len() - 1] == b[b.len() - 1]);
        } else {
            assert(a + b =~= a);
        }
    }
}

/// The last paragraph of a reading flow is the last of its paragraphs, in
/// reading order, descending into headings: there is one exactly when the
/// flow holds a paragraph, and no paragraph of the flow comes after it.
pub proof fn law_last_paragraph_is_last_in_flow(nodes: Seq<CndNode>)
    ensures
        last_paragraph(nodes) is None <==> heading_flow_paragraphs(nodes).len() == 0,
        heading_flow_paragraphs(nodes).len() > 0 ==> last_paragraph(nodes) == Some(
            heading_flow_paragraphs(nodes)[heading_flow_paragraphs(nodes).len() - 1],
        ),
{
    lemma_last_paragraph_flow(nodes);
}

/// A paragraph placed after a reading flow is its last paragraph, whatever
/// came before it.
pub proof fn law_paragraph_appended_is_last(nodes: Seq<CndNode>, p: ParagraphNode)
    ensures
        last_paragraph(nodes.push(CndNode::Paragraph(p))) == Some(p.base.id),
{
    let s = nodes.push(CndNode::Paragraph(p));
    assert(s.last() == CndNode::Paragraph(p));
    assert(node_last_paragraph(CndNode::Paragraph(p)) == Some(p.base.id));
    assert(last_paragraph(s) == Some(p.base.id));
}

/// Looked up from a flow that begins with heading `h`, the last paragraph
/// under `h` is the last paragraph of the flow of its children.
pub proof fn law_last_paragraph_under_heading(h: HeadingNode, rest: Seq<CndNode>)
    ensures
        under_heading(seq![CndNode::Heading(h)] + rest, h.base.id) == Some(
            last_of(heading_flow_paragraphs(h.children@)),
        ),
{
    let nodes = seq![CndNode::Heading(h)] + rest;
    assert(nodes[0] == CndNode::Heading(h));
    lemma_last_paragraph_flow(h.children@);
    assert(node_under_heading(CndNode::Heading(h), h.base.id) == Some(last_paragraph(h.children@)));
    assert(under_heading(nodes, h.base.id) == Some(last_paragraph(h.children@)));
}

proof fn lemma_heading_ids_append(a: Seq<CndNode>, b: Seq<CndNode>)
    ensures
        heading_ids(a + b) == heading_ids(a) + heading_ids(b),
    decreases b.len(),
{
    if b.len() == 0 {
        assert(a + b =~= a);
        assert(heading_ids(a) + heading_ids(b) =~= heading_ids(a));
    } else {
        lemma_heading_ids_append(a, b.drop_last());
        assert((a + b).drop_last() =~= a + b.drop_last());
        assert((a + b).last() == b.last());
        assert(heading_ids(a + b) =~= heading_ids(a) + heading_ids(b));
    }
}

/// Headings are listed in document order: a flow that begins with heading
/// `h` lists `h` first, then the headings nested in it, then those of the
/// rest of the flow.
pub proof fn law_heading_ids_preorder(h: HeadingNode, rest: Seq<CndNode>)
    ensures
        heading_ids(seq![CndNode::Heading(h)] + rest).len() > 0,
        heading_ids(seq![CndNode::Heading(h)] + rest)[0] == h.base.id,
        heading_ids(seq![CndNode::Heading(h)] + rest) == seq![h.base.id] + heading_ids(h.children@) + heading_ids(
            rest,
        ),
{
    let one = seq![CndNode::Heading(h)];
    lemma_heading_ids_append(one, rest);
    assert(one.drop_last() =~= Seq::<CndNode>::empty());
    assert(one.last() == CndNode::Heading(h));
    assert(heading_ids(Seq::<CndNode>::empty()) == Seq::<u128>::empty());
    assert(node_heading_ids(CndNode::Heading(h)) == seq![h.base.id] + heading_ids(h.children@));
    assert(heading_ids(one) == heading_ids(one.drop_last()) + node_heading_ids(one.last()));
    assert(heading_ids(one) =~= seq![h.base.id] + heading_ids(h.children@));
}

/// The label of the first node of `nodes` with id `id`, looking into
/// headings; a heading's subtree whose match has no label does not stop
/// the search.
pub open spec fn label_walk(nodes: Seq<CndNode>, id: u128) -> Option<String>
    decreases nodes,
{
    if nodes.len() == 0 {
        None
    } else if base_of(nodes[0]).id == id {
        base_of(nodes[0]).label
    } else {
        let inner = match nodes[0] {
            CndNode::Heading(h) => label_walk(h.children@, id),
            _ => None,
        };
        if inner is Some {
            inner
        } else {
            label_walk(nodes.drop_first(), id)
        }
    }
}

fn copy_label(l: &Option<String>) -> (r: Option<String>)
    ensures
        r == *l,
{
    match l {
        Some(s) => Some(s.clone()),
        None => None,
    }
}

fn walk_label(nodes: &Vec<CndNode>, id: u128) -> (r: Option<String>)
    ensures
        r == label_walk(nodes@, id),
    decreases nodes@,
{
    let mut i: usize = 0;
    assert(nodes@.skip(0) == nodes@);
    while i < nodes.len()
        invariant
            0 <= i <= nodes@.len(),
            label_walk(nodes@, id) == label_walk(nodes@.skip(i as int), id),
        decreases nodes@.len() - i,
    {
        let ghost here = nodes@[i as int];
        assert(decreases_to!(nodes@ => here));
        assert(nodes@.skip(i as int)[0] == here);
        assert(nodes@.skip(i as int).drop_first() == nodes@.skip(i + 1));
        let node = &nodes[i];
        if node.id() == id {
            return copy_label(&node.base().label);
        }
        match node {
            CndNode::Heading(h) => {
                let found = walk_label(&h.children, id);
                if found.is_some() {
                    return found;
                }
            },
            _ => {},
        }
        i += 1;
    }
    None
}

/// The label of node `id` in the context's tree.
pub fn node_label(ctx: &ConvertContext, id: u128) -> (r: Option<String>)
    ensures
        r == label_walk(ctx.roots@, id),
{
    walk_label(&ctx.roots, id)
}

/// Whether `span` is the text span `s` written as a pair.
pub open spec fn span_written(s: Option<(i64, i64)>, v: Option<Vec<i64>>) -> bool {
    match s {
        None => v is None,
        Some((a, b)) => v matches Some(w) && w@ == seq![a, b],
    }
}

pub fn write_span(s: Option<(i64, i64)>) -> (r: Option<Vec<i64>>)
    ensures
        span_written(s, r),
{
    match s {
        Some((a, b)) => {
            let mut v: Vec<i64> = Vec::new();
            v.push(a);
            v.push(b);
            assert(v@ =~= seq![a, b]);
            Some(v)
        },
        None => None,
    }
}

/// Whether `r` is the forward edge to `target` with label `label` and
/// marker span `span`.
pub open spec fn is_ref_edge(r: NodeRef, target: u128, label: Option<String>, span: Option<(i64, i64)>) -> bool {
    &&& r.id == target
    &&& r.label == label
    &&& span_written(span, r.text_span)
}

/// Adds to node `source` a forward edge to `target`, unless it already has
/// one to `target`; does nothing when no node has id `source`.
pub fn set_ref(ctx: &mut ConvertContext, source: u128, target: u128, label: Option<String>, span: Option<(i64, i64)>)
    ensures
        final(ctx).records == old(ctx).records,
        final(ctx).label_to_id == old(ctx).label_to_id,
        final(ctx).location_to_id == old(ctx).location_to_id,
        final(ctx).footnotes == old(ctx).footnotes,
        final(ctx).footnote_loc_to_id == old(ctx).footnote_loc_to_id,
        final(ctx).bibliography == old(ctx).bibliography,
        final(ctx).bib_key_to_id == old(ctx).bib_key_to_id,
        contains_id(old(ctx).roots@, source) ==> exists|r: NodeRef|
            is_ref_edge(r, target, label, span) && edited(
                old(ctx).roots@,
                final(ctx).roots@,
                source,
                NodeEdit::AddRef(r),
            ),
        !contains_id(old(ctx).roots@, source) ==> final(ctx).roots == old(ctx).roots,
{
    let r = NodeRef { id: target, label, text_span: write_span(span) };
    let ghost edge = r;
    let _ = edit_node(&mut ctx.roots, source, NodeEdit::AddRef(r));
    assert(is_ref_edge(edge, target, label, span));
}

// ---------------------------------------------------------------------------
// Which node a label names

/// What the document's introspector knows of a label.
pub struct LabelTarget {
    /// The label's text.
    pub label: String,
    /// Whether exactly one element carries the label.
    pub found: bool,
    /// That element's location, if it has one.
    pub location: Option<u128>,
    /// Whether that element is a figure.
    pub is_figure: bool,
    /// The locations of the figures carrying the label, in document order.
    pub figure_locations: Vec<u128>,
}

/// The first of `targets` describing label `l`.
pub open spec fn target_for(targets: Seq<LabelTarget>, l: Seq<char>) -> Option<LabelTarget>
    decreases targets.len(),
{
    if targets.len() == 0 {
        None
    } else if targets[0].label@ == l {
        Some(targets[0])
    } else {
        target_for(targets.drop_first(), l)
    }
}

/// The id of the first record carrying label `l`.
pub open spec fn record_with_label(records: Seq<(u128, NodeRecord)>, l: Seq<char>) -> Option<u128>
    decreases records.len(),
{
    if records.len() == 0 {
        None
    } else if records[0].1.label matches Some(x) && x@ == l {
        Some(records[0].0)
    } else {
        record_with_label(records.drop_first(), l)
    }
}

/// The node at the first of `locs` that leads to one.
pub open spec fn first_located(locs: Seq<u128>, m: Map<u128, u128>) -> Option<u128>
    decreases locs.len(),
{
    if locs.len() == 0 {
        None
    } else if m.contains_key(locs[0]) {
        Some(m[locs[0]])
    } else {
        first_located(locs.drop_first(), m)
    }
}

/// The node label `l` names: by the label index; else, where one element
/// carries the label, by its location, by the location of a figure with
/// the label, or by the first record in `rs` with the label — for a figure
/// falling back on the first table of the tree.
pub open spec fn resolve_in(
    ctx: ConvertContext,
    targets: Seq<LabelTarget>,
    l: Seq<char>,
    rs: Seq<(u128, NodeRecord)>,
) -> Option<u128> {
    if ctx.label_to_id@.contains_key(l) {
        Some(ctx.label_to_id@[l])
    } else {
        match target_for(targets, l) {
            None => None,
            Some(t) => if !t.found {
                None
            } else if t.location is Some && ctx.location_to_id@.contains_key(t.location.unwrap()) {
                Some(ctx.location_to_id@[t.location.unwrap()])
            } else if first_located(t.figure_locations@, ctx.location_to_id@) is Some {
                first_located(t.figure_locations@, ctx.location_to_id@)
            } else if t.is_figure {
                match record_with_label(rs, l) {
                    Some(id) => Some(id),
                    None => first_table(ctx.roots@),
                }
            } else {
                record_with_label(rs, l)
            },
        }
    }
}

fn find_target<'a>(targets: &'a Vec<LabelTarget>, label: &str) -> (r: Option<&'a LabelTarget>)
    ensures
        r == (match target_for(targets@, label@) {
            Some(t) => Some(&t),
            None => None,
        }),
{
    let mut i: usize = 0;
    assert(targets@.skip(0) == targets@);
    while i < targets.len()
        invariant
            0 <= i <= targets@.len(),
            target_for(targets@, label@) == target_for(targets@.skip(i as int), label@),
        decreases targets@.len() - i,
    {
        assert(targets@.skip(i as int)[0] == targets@[i as int]);
        assert(targets@.skip(i as int).drop_first() == targets@.skip(i + 1));
        if str_eq(targets[i].label.as_str(), label) {
            return Some(&targets[i]);
        }
        i += 1;
    }
    None
}

fn find_record_with_label(records: &FxHashMap<u128, NodeRecord>, order: &Vec<u128>, label: &str) -> (r: Option<u128>)
    requires
        keys_in(order@, records@),
    ensures
        r == record_with_label(walk_of(order@, records@), label@),
{
    let ghost rs = walk_of(order@, records@);
    let mut i: usize = 0;
    assert(rs.skip(0) == rs);
    while i < order.len()
        invariant
            0 <= i <= order@.len(),
            rs == walk_of(order@, records@),
            keys_in(order@, records@),
            record_with_label(rs, label@) == record_with_label(rs.skip(i as int), label@),
        decreases order@.len() - i,
    {
        assert(rs.skip(i as int)[0] == rs[i as int]);
        assert(rs.skip(i as int).drop_first() == rs.skip(i + 1));
        let id = order[i];
        assert(records@.contains_key(order@[i as int]));
        match fx_get_ref(records, &id) {
            Some(record) => match &record.label {
                Some(x) => {
                    if str_eq(x.as_str(), label) {
                        return Some(id);
                    }
                },
                None => {},
            },
            None => {},
        }
        i += 1;
    }
    None
}

fn find_located(locs: &Vec<u128>, m: &rustc_hash::FxHashMap<u128, u128>) -> (r: Option<u128>)
    ensures
        r == first_located(locs@, m@),
{
    let mut i: usize = 0;
    assert(locs@.skip(0) == locs@);
    while i < locs.len()
        invariant
            0 <= i <= locs@.len(),
            first_located(locs@, m@) == first_located(locs@.skip(i as int), m@),
        decreases locs@.len() - i,
    {
        assert(locs@.skip(i as int)[0] == locs@[i as int]);
        assert(locs@.skip(i as int).drop_first() == locs@.skip(i + 1));
        match fx_get(m, &locs[i]) {
            Some(id) => return Some(id),
            None => {},
        }
        i += 1;
    }
    None
}

/// The node that label `label` names, given what the introspector knows of
/// each label in `targets`, with the records walked in key order `order`.
pub fn resolve_label_in(label: &str, ctx: &ConvertContext, targets: &Vec<LabelTarget>, order: &Vec<u128>) -> (r: Option<
    u128,
>)
    requires
        keys_in(order@, ctx.records@),
    ensures
        r == resolve_in(*ctx, targets@, label@, walk_of(order@, ctx.records@)),
{
    match ctx.label_to_id.get(label) {
        Some(id) => return Some(id),
        None => {},
    }
    let t = match find_target(targets, label) {
        Some(t) => t,
        None => return None,
    };
    if !t.found {
        return None;
    }
    match t.location {
        Some(loc) => match fx_get(&ctx.location_to_id, &loc) {
            Some(id) => return Some(id),
            None => {},
        },
        None => {},
    }
    match find_located(&t.figure_locations, &ctx.location_to_id) {
        Some(id) => return Some(id),
        None => {},
    }
    if t.is_figure {
        match find_record_with_label(&ctx.records, order, label) {
            Some(id) => return Some(id),
            None => {},
        }
        return find_labeled_table(&ctx.roots);
    }
    find_record_with_label(&ctx.records, order, label)
}

/// The node that label `label` names, given what the introspector knows of
/// each label in `targets`: the records are walked in the map's own order.
pub fn resolve_label(label: &str, ctx: &ConvertContext, targets: &Vec<LabelTarget>) -> (r: Option<u128>)
    ensures
        exists|order: Seq<u128>|
            is_key_order(order, ctx.records@) && r == resolve_in(*ctx, targets@, label@, walk_of(order, ctx.records@)),
{
    let order = record_order(&ctx.records);
    let r = resolve_label_in(label, ctx, targets, &order);
    assert(is_key_order(order@, ctx.records@) && r == resolve_in(*ctx, targets@, label@, walk_of(order@, ctx.records@)));
    r
}

// ---------------------------------------------------------------------------
// Resolving every reference

/// Which node kind a reference found in the document's source sits in.
#[derive(Clone, Copy, PartialEq, Eq, Structural)]
pub enum RefSourceKind {
    Heading,
    Paragraph,
}

/// A forward edge to attach: source node, target node, the target's label
/// and the marker's text span.
pub type RefEdge = (u128, u128, Option<String>, Option<(i64, i64)>);

/// The edges of reference markers `ms` found in node `id`: those that name
/// a node, citation keys left out.
pub open spec fn marker_edges(
    ctx: ConvertContext,
    targets: Seq<LabelTarget>,
    rs: Seq<(u128, NodeRecord)>,
    id: u128,
    ms: Seq<(String, (i64, i64))>,
) -> Seq<RefEdge>
    decreases ms.len(),
{
    if ms.len() == 0 {
        Seq::empty()
    } else {
        let prev = marker_edges(ctx, targets, rs, id, ms.drop_last());
        let (l, sp) = ms.last();
        if ctx.bib_key_to_id@.contains_key(l@) {
            prev
        } else {
            match resolve_in(ctx, targets, l@, rs) {
                Some(t) => prev.push((id, t, Some(l), Some(sp))),
                None => prev,
            }
        }
    }
}

/// The edges of referenced labels `ls` of node `id`, without spans.
pub open spec fn target_edges(
    ctx: ConvertContext,
    targets: Seq<LabelTarget>,
    rs: Seq<(u128, NodeRecord)>,
    id: u128,
    ls: Seq<String>,
) -> Seq<RefEdge>
    decreases ls.len(),
{
    if ls.len() == 0 {
        Seq::empty()
    } else {
        let prev = target_edges(ctx, targets, rs, id, ls.drop_last());
        let l = ls.last();
        if ctx.bib_key_to_id@.contains_key(l@) {
            prev
        } else {
            match resolve_in(ctx, targets, l@, rs) {
                Some(t) => prev.push((id, t, Some(l), None)),
                None => prev,
            }
        }
    }
}

/// The edges the records `ps` hold, record after record: markers first,
/// then referenced labels, each label resolved with the records walked as
/// `rs`.
pub open spec fn primary_edges(
    ctx: ConvertContext,
    targets: Seq<LabelTarget>,
    rs: Seq<(u128, NodeRecord)>,
    ps: Seq<(u128, NodeRecord)>,
) -> Seq<RefEdge>
    decreases ps.len(),
{
    if ps.len() == 0 {
        Seq::empty()
    } else {
        let (id, r) = ps.last();
        primary_edges(ctx, targets, rs, ps.drop_last()) + marker_edges(ctx, targets, rs, id, r.ref_markers@)
            + target_edges(ctx, targets, rs, id, r.ref_targets@)
    }
}

/// Whether node `id` placed at least one reference marker that names a
/// node: its own markers then decide its edges.
pub open spec fn marker_source(
    ctx: ConvertContext,
    targets: Seq<LabelTarget>,
    rs: Seq<(u128, NodeRecord)>,
    id: u128,
) -> bool {
    exists|i: int|
        0 <= i < rs.len() && (#[trigger] rs[i]).0 == id && marker_edges(ctx, targets, rs, id, rs[i].1.ref_markers@).len()
            > 0
}

/// The edges of references found in the document's source, `cs`, each
/// given by the kind and index (in reading order) of the node it sits in:
/// those of nodes without markers of their own; a reference in a heading
/// also gives an edge to the heading's last paragraph.
pub open spec fn fallback_edges(
    ctx: ConvertContext,
    targets: Seq<LabelTarget>,
    rs: Seq<(u128, NodeRecord)>,
    cs: Seq<(RefSourceKind, usize, String)>,
) -> Seq<RefEdge>
    decreases cs.len(),
{
    if cs.len() == 0 {
        Seq::empty()
    } else {
        let prev = fallback_edges(ctx, targets, rs, cs.drop_last());
        let (kind, index, l) = cs.last();
        let ids = if kind == RefSourceKind::Paragraph {
            paragraph_ids(ctx.roots@)
        } else {
            heading_ids(ctx.roots@)
        };
        if ctx.bib_key_to_id@.contains_key(l@) || index >= ids.len() || marker_source(ctx, targets, rs, ids[index as int]) {
            prev
        } else {
            let src = ids[index as int];
            match resolve_in(ctx, targets, l@, rs) {
                None => prev,
                Some(t) => {
                    let with_src = prev.push((src, t, Some(l), None));
                    if kind == RefSourceKind::Heading {
                        match under_heading(ctx.roots@, src) {
                            Some(Some(p)) => if marker_source(ctx, targets, rs, p) {
                                with_src
                            } else {
                                with_src.push((p, t, Some(l), None))
                            },
                            _ => with_src,
                        }
                    } else {
                        with_src
                    }
                },
            }
        }
    }
}

fn push_marker_edges(
    ctx: &ConvertContext,
    targets: &Vec<LabelTarget>,
    id: u128,
    ms: &Vec<(String, (i64, i64))>,
    order: &Vec<u128>,
    out: &mut Vec<RefEdge>,
)
    requires
        keys_in(order@, ctx.records@),
    ensures
        final(out)@ == old(out)@ + marker_edges(*ctx, targets@, walk_of(order@, ctx.records@), id, ms@),
{
    let mut i: usize = 0;
    while i < ms.len()
        invariant
            keys_in(order@, ctx.records@),
            0 <= i <= ms@.len(),
            out@ == old(out)@ + marker_edges(*ctx, targets@, walk_of(order@, ctx.records@), id, ms@.take(i as int)),
        decreases ms@.len() - i,
    {
        assert(ms@.take(i + 1).drop_last() == ms@.take(i as int));
        assert(ms@.take(i + 1).last() == ms@[i as int]);
        let label = &ms[i].0;
        if !ctx.bib_key_to_id.contains(label.as_str()) {
            match resolve_label_in(label.as_str(), ctx, targets, order) {
                Some(t) => {
                    out.push((id, t, Some(label.clone()), Some(ms[i].1)));
                },
                None => {},
            }
        }
        i += 1;
    }
    assert(ms@.take(i as int) == ms@);
}

fn push_target_edges(
    ctx: &ConvertContext,
    targets: &Vec<LabelTarget>,
    id: u128,
    ls: &Vec<String>,
    order: &Vec<u128>,
    out: &mut Vec<RefEdge>,
)
    requires
        keys_in(order@, ctx.records@),
    ensures
        final(out)@ == old(out)@ + target_edges(*ctx, targets@, walk_of(order@, ctx.records@), id, ls@),
{
    let mut i: usize = 0;
    while i < ls.len()
        invariant
            keys_in(order@, ctx.records@),
            0 <= i <= ls@.len(),
            out@ == old(out)@ + target_edges(*ctx, targets@, walk_of(order@, ctx.records@), id, ls@.take(i as int)),
        decreases ls@.len() - i,
    {
        assert(ls@.take(i + 1).drop_last() == ls@.take(i as int));
        assert(ls@.take(i + 1).last() == ls@[i as int]);
        let label = &ls[i];
        if !ctx.bib_key_to_id.contains(label.as_str()) {
            match resolve_label_in(label.as_str(), ctx, targets, order) {
                Some(t) => {
                    out.push((id, t, Some(label.clone()), None));
                },
                None => {},
            }
        }
        i += 1;
    }
    assert(ls@.take(i as int) == ls@);
}

fn contains_u128(v: &Vec<u128>, x: u128) -> (r: bool)
    ensures
        r == v@.contains(x),
{
    let mut i: usize = 0;
    while i < v.len()
        invariant
            0 <= i <= v@.len(),
            forall|j: int| 0 <= j < i ==> v@[j] != x,
        decreases v@.len() - i,
    {
        if v[i] == x {
            assert(v@[i as int] == x);
            return true;
        }
        i += 1;
    }
    false
}

/// The forward edges that the references of the document give: first those
/// the records hold, then those found in the document's source `content`.
pub fn ref_edges(
    ctx: &ConvertContext,
    targets: &Vec<LabelTarget>,
    content: &Vec<(RefSourceKind, usize, String)>,
    order: &Vec<u128>,
) -> (r: Vec<RefEdge>)
    requires
        keys_in(order@, ctx.records@),
    ensures
        r@ == primary_edges(*ctx, targets@, walk_of(order@, ctx.records@), walk_of(order@, ctx.records@))
            + fallback_edges(*ctx, targets@, walk_of(order@, ctx.records@), content@),
{
    let ghost rs = walk_of(order@, ctx.records@);
    let mut edges: Vec<RefEdge> = Vec::new();
    let mut sources: Vec<u128> = Vec::new();
    let mut k: usize = 0;
    while k < order.len()
        invariant
            0 <= k <= order@.len(),
            rs == walk_of(order@, ctx.records@),
            keys_in(order@, ctx.records@),
            edges@ == primary_edges(*ctx, targets@, rs, rs.take(k as int)),
            forall|x: u128|
                sources@.contains(x) <==> exists|i: int|
                    0 <= i < k && (#[trigger] rs[i]).0 == x && marker_edges(
                        *ctx,
                        targets@,
                        rs,
                        x,
                        rs[i].1.ref_markers@,
                    ).len() > 0,
        decreases order@.len() - k,
    {
        assert(rs.take(k + 1).drop_last() == rs.take(k as int));
        assert(rs.take(k + 1).last() == rs[k as int]);
        let id = order[k];
        assert(ctx.records@.contains_key(order@[k as int]));
        let record = fx_get_ref(&ctx.records, &id).unwrap();
        assert(rs[k as int] == (id, *record));
        let before = edges.len();
        let ghost prev = edges@;
        push_marker_edges(ctx, targets, id, &record.ref_markers, order, &mut edges);
        let ghost mid = edges@;
        let ghost old_sources = sources@;
        if edges.len() > before {
            sources.push(id);
        }
        proof {
            let me = marker_edges(*ctx, targets@, rs, id, record.ref_markers@);
            assert(mid == prev + me);
            assert forall|x: u128| sources@.contains(x) <==> exists|i: int|
                0 <= i < k + 1 && (#[trigger] rs[i]).0 == x && marker_edges(
                    *ctx,
                    targets@,
                    rs,
                    x,
                    rs[i].1.ref_markers@,
                ).len() > 0 by {
                if sources@.contains(x) && !old_sources.contains(x) {
                    assert(x == id);
                    assert(rs[k as int].0 == x);
                }
                if exists|i: int|
                    0 <= i < k + 1 && (#[trigger] rs[i]).0 == x && marker_edges(
                        *ctx,
                        targets@,
                        rs,
                        x,
                        rs[i].1.ref_markers@,
                    ).len() > 0 {
                    let i = choose|i: int|
                        0 <= i < k + 1 && (#[trigger] rs[i]).0 == x && marker_edges(
                            *ctx,
                            targets@,
                            rs,
                            x,
                            rs[i].1.ref_markers@,
                        ).len() > 0;
                    if i == k {
                        assert(sources@.last() == x);
                    } else {
                        assert(old_sources.contains(x));
                        let w = choose|w: int| 0 <= w < old_sources.len() && old_sources[w] == x;
                        assert(sources@[w] == x);
                    }
                }
            }
        }
        push_target_edges(ctx, targets, id, &record.ref_targets, order, &mut edges);
        k += 1;
    }
    assert(rs.take(k as int) == rs);
    assert(forall|x: u128| sources@.contains(x) <==> marker_source(*ctx, targets@, rs, x));
    let ghost primary = edges@;
    let paragraph_ids = paragraph_ids_from_nodes(&ctx.roots);
    let heading_ids = heading_ids_from_nodes(&ctx.roots);
    let mut c: usize = 0;
    while c < content.len()
        invariant
            0 <= c <= content@.len(),
            paragraph_ids@ == crate::refs::paragraph_ids(ctx.roots@),
            heading_ids@ == crate::refs::heading_ids(ctx.roots@),
            forall|x: u128| sources@.contains(x) <==> marker_source(*ctx, targets@, rs, x),
            edges@ == primary + fallback_edges(*ctx, targets@, rs, content@.take(c as int)),
            rs == walk_of(order@, ctx.records@),
            keys_in(order@, ctx.records@),
        decreases content@.len() - c,
    {
        assert(content@.take(c + 1).drop_last() == content@.take(c as int));
        assert(content@.take(c + 1).last() == content@[c as int]);
        let kind = content[c].0;
        let index = content[c].1;
        let label = &content[c].2;
        let ids = if kind == RefSourceKind::Paragraph {
            &paragraph_ids
        } else {
            &heading_ids
        };
        if !ctx.bib_key_to_id.contains(label.as_str()) && index < ids.len() {
            let source = ids[index];
            if !contains_u128(&sources, source) {
                match resolve_label_in(label.as_str(), ctx, targets, order) {
                    Some(target) => {
                        edges.push((source, target, Some(label.clone()), None));
                        if kind == RefSourceKind::Heading {
                            match last_paragraph_under_heading(&ctx.roots, source) {
                                Some(p) => {
                                    if !contains_u128(&sources, p) {
                                        edges.push((p, target, Some(label.clone()), None));
                                    }
                                },
                                None => {},
                            }
                        }
                    },
                    None => {},
                }
            }
        }
        c += 1;
    }
    assert(content@.take(c as int) == content@);
    edges
}

/// The label edge `e` carries into tree `mid`: its own, or else the
/// target node's.
pub open spec fn edge_label(mid: Seq<CndNode>, e: RefEdge) -> Option<String> {
    match e.2 {
        Some(l) => Some(l),
        None => label_walk(mid, e.1),
    }
}

/// Whether tree `new` is `mid` with edge `e` attached: to its source, when
/// the tree holds it, unless that node has an edge to the same target; the
/// edge's label, when it has none, is the target node's.
pub open spec fn ref_step(mid: Seq<CndNode>, new: Seq<CndNode>, e: RefEdge) -> bool {
    if contains_id(mid, e.0) {
        exists|r: NodeRef|
            is_ref_edge(r, e.1, edge_label(mid, e), e.3) && edited(mid, new, e.0, NodeEdit::AddRef(r))
    } else {
        new == mid
    }
}

/// Whether tree `new` is `old` with `edges` attached one after the other.
pub open spec fn refs_applied(old: Seq<CndNode>, new: Seq<CndNode>, edges: Seq<RefEdge>) -> bool
    decreases edges.len(),
{
    if edges.len() == 0 {
        new == old
    } else {
        exists|mid: Seq<CndNode>| refs_applied(old, mid, edges.drop_last()) && ref_step(mid, new, edges.last())
    }
}

/// Attaches `edges`, in order, to the context's tree.
pub fn apply_ref_edges(ctx: &mut ConvertContext, edges: &Vec<RefEdge>)
    ensures
        refs_applied(old(ctx).roots@, final(ctx).roots@, edges@),
        final(ctx).records == old(ctx).records,
        final(ctx).label_to_id == old(ctx).label_to_id,
        final(ctx).location_to_id == old(ctx).location_to_id,
        final(ctx).footnotes == old(ctx).footnotes,
        final(ctx).footnote_loc_to_id == old(ctx).footnote_loc_to_id,
        final(ctx).bibliography == old(ctx).bibliography,
        final(ctx).bib_key_to_id == old(ctx).bib_key_to_id,
{
    let ghost start = ctx.roots@;
    let mut i: usize = 0;
    assert(edges@.take(0) == Seq::<RefEdge>::empty());
    while i < edges.len()
        invariant
            0 <= i <= edges@.len(),
            refs_applied(start, ctx.roots@, edges@.take(i as int)),
            start == old(ctx).roots@,
            ctx.records == old(ctx).records,
            ctx.label_to_id == old(ctx).label_to_id,
            ctx.location_to_id == old(ctx).location_to_id,
            ctx.footnotes == old(ctx).footnotes,
            ctx.footnote_loc_to_id == old(ctx).footnote_loc_to_id,
            ctx.bibliography == old(ctx).bibliography,
            ctx.bib_key_to_id == old(ctx).bib_key_to_id,
        decreases edges@.len() - i,
    {
        let ghost mid = ctx.roots@;
        let edge = &edges[i];
        let label = match &edge.2 {
            Some(l) => Some(l.clone()),
            None => node_label(ctx, edge.1),
        };
        let ghost gl = label;
        assert(gl == edge_label(mid, edges@[i as int]));
        set_ref(ctx, edge.0, edge.1, label, edge.3);
        proof {
            assert(edges@.take(i + 1).drop_last() == edges@.take(i as int));
            assert(edges@.take(i + 1).last() == edges@[i as int]);
            let e = edges@[i as int];
            if contains_id(mid, e.0) {
                let r = choose|r: NodeRef|
                    is_ref_edge(r, e.1, gl, e.3) && edited(mid, ctx.roots@, e.0, NodeEdit::AddRef(r));
                assert(is_ref_edge(r, e.1, gl, e.3));
                assert(edited(mid, ctx.roots@, e.0, NodeEdit::AddRef(r)));
                assert(exists|r: NodeRef|
                    is_ref_edge(r, e.1, gl, e.3) && edited(mid, ctx.roots@, e.0, NodeEdit::AddRef(r)));
            } else {
                assert(ctx.roots@ == mid);
            }
            assert(ref_step(mid, ctx.roots@, e));
        }
        i += 1;
    }
    assert(edges@.take(i as int) == edges@);
}

/// Resolves the document's cross-references and attaches each as a forward
/// `refs` edge to the node holding it: the edges of [`ref_edges`], computed
/// on the tree as it stands with the records walked in the map's own order,
/// attached in order.
pub fn resolve_refs(
    ctx: &mut ConvertContext,
    targets: &Vec<LabelTarget>,
    content: &Vec<(RefSourceKind, usize, String)>,
)
    ensures
        exists|order: Seq<u128>|
            {
                let rs = walk_of(order, old(ctx).records@);
                &&& #[trigger] is_key_order(order, old(ctx).records@)
                &&& refs_applied(
                    old(ctx).roots@,
                    final(ctx).roots@,
                    primary_edges(*old(ctx), targets@, rs, rs) + fallback_edges(*old(ctx), targets@, rs, content@),
                )
            },
        final(ctx).records == old(ctx).records,
        final(ctx).label_to_id == old(ctx).label_to_id,
        final(ctx).location_to_id == old(ctx).location_to_id,
        final(ctx).footnotes == old(ctx).footnotes,
        final(ctx).footnote_loc_to_id == old(ctx).footnote_loc_to_id,
        final(ctx).bibliography == old(ctx).bibliography,
        final(ctx).bib_key_to_id == old(ctx).bib_key_to_id,
{
    let ghost start = *ctx;
    let order = record_order(&ctx.records);
    let edges = ref_edges(ctx, targets, content, &order);
    apply_ref_edges(ctx, &edges);
    proof {
        let rs = walk_of(order@, start.records@);
        assert(is_key_order(order@, start.records@));
        assert(refs_applied(
            start.roots@,
            ctx.roots@,
            primary_edges(start, targets@, rs, rs) + fallback_edges(start, targets@, rs, content@),
        ));
    }
}

// ---------------------------------------------------------------------------
// The label index

/// The label index the records `rs` give, a later record winning.
pub open spec fn records_labels(rs: Seq<(u128, NodeRecord)>) -> Map<Seq<char>, u128>
    decreases rs.len(),
{
    if rs.len() == 0 {
        Map::empty()
    } else {
        let prev = records_labels(rs.drop_last());
        match rs.last().1.label {
            Some(l) => prev.insert(l@, rs.last().0),
            None => prev,
        }
    }
}

/// Whether `b` is `a` after labelled element `l` is indexed, the records
/// walked in key order `order`: when the label names a node, the index
/// leads the label to it and the node's record, if any, takes the label.
pub open spec fn label_step(
    a: ConvertContext,
    b: ConvertContext,
    targets: Seq<LabelTarget>,
    order: Seq<u128>,
    l: String,
) -> bool {
    match resolve_in(a, targets, l@, walk_of(order, a.records@)) {
        None => b == a,
        Some(id) => {
            &&& b == ConvertContext { label_to_id: b.label_to_id, records: b.records, ..a }
            &&& b.label_to_id@ == a.label_to_id@.insert(l@, id)
            &&& if a.records@.contains_key(id) {
                b.records@ == a.records@.insert(id, NodeRecord { label: Some(l), ..a.records@[id] })
            } else {
                b.records@ == a.records@
            }
        },
    }
}

/// Whether `b` is `a` after the labelled elements `ls` are indexed in turn,
/// the records walked in key order `order`.
pub open spec fn labels_indexed(
    a: ConvertContext,
    b: ConvertContext,
    targets: Seq<LabelTarget>,
    order: Seq<u128>,
    ls: Seq<String>,
) -> bool
    decreases ls.len(),
{
    if ls.len() == 0 {
        b == a
    } else {
        exists|mid: ConvertContext|
            labels_indexed(a, mid, targets, order, ls.drop_last()) && label_step(mid, b, targets, order, ls.last())
    }
}

/// Rebuilds the label index: from the records' labels, a later record in
/// the map's walk winning, then from each labelled element of the document,
/// `labelled`, in document order, which also labels the record of the node
/// it names.
pub fn rebuild_label_index(ctx: &mut ConvertContext, targets: &Vec<LabelTarget>, labelled: &Vec<String>)
    ensures
        exists|order: Seq<u128>, mid: ConvertContext|
            {
                &&& is_key_order(order, old(ctx).records@)
                &&& mid == (ConvertContext { label_to_id: mid.label_to_id, ..*old(ctx) })
                &&& mid.label_to_id@ == records_labels(walk_of(order, old(ctx).records@))
                &&& #[trigger] labels_indexed(mid, *final(ctx), targets@, order, labelled@)
            },
{
    let order = record_order(&ctx.records);
    let ghost rs = walk_of(order@, ctx.records@);
    ctx.label_to_id.clear();
    let mut k: usize = 0;
    while k < order.len()
        invariant
            0 <= k <= order@.len(),
            rs == walk_of(order@, old(ctx).records@),
            keys_in(order@, old(ctx).records@),
            *ctx == (ConvertContext { label_to_id: ctx.label_to_id, ..*old(ctx) }),
            ctx.label_to_id@ == records_labels(rs.take(k as int)),
        decreases order@.len() - k,
    {
        assert(rs.take(k + 1).drop_last() == rs.take(k as int));
        assert(rs.take(k + 1).last() == rs[k as int]);
        let id = order[k];
        assert(ctx.records@.contains_key(order@[k as int]));
        let record = fx_get_ref(&ctx.records, &id).unwrap();
        match &record.label {
            Some(l) => {
                let l2 = l.clone();
                ctx.label_to_id.insert(l2, id);
            },
            None => {},
        }
        k += 1;
    }
    assert(rs.take(k as int) == rs);
    let ghost mid = *ctx;
    let mut j: usize = 0;
    while j < labelled.len()
        invariant
            0 <= j <= labelled@.len(),
            is_key_order(order@, ctx.records@),
            keys_in(order@, ctx.records@),
            labels_indexed(mid, *ctx, targets@, order@, labelled@.take(j as int)),
        decreases labelled@.len() - j,
    {
        assert(labelled@.take(j + 1).drop_last() == labelled@.take(j as int));
        assert(labelled@.take(j + 1).last() == labelled@[j as int]);
        let ghost before = *ctx;
        let label = &labelled[j];
        match resolve_label_in(label.as_str(), ctx, targets, &order) {
            Some(id) => {
                ctx.label_to_id.insert(label.clone(), id);
                match fx_remove(&mut ctx.records, &id) {
                    Some(record) => {
                        let mut record = record;
                        record.label = Some(label.clone());
                        fx_insert(&mut ctx.records, id, record);
                        proof {
                            assert(ctx.records@ =~= before.records@.insert(
                                id,
                                NodeRecord { label: Some(labelled@[j as int]), ..before.records@[id] },
                            ));
                        }
                    },
                    None => {
                        assert(ctx.records@ =~= before.records@);
                    },
                }
            },
            None => {},
        }
        assert(label_step(before, *ctx, targets@, order@, labelled@[j as int]));
        assert(labels_indexed(mid, *ctx, targets@, order@, labelled@.take(j + 1)));
        j += 1;
    }
    assert(labelled@.take(j as int) == labelled@);
    assert(is_key_order(order@, old(ctx).records@));
}

} // verus!
