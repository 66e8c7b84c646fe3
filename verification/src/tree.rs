//! Walks over the node tree: finding nodes by id, editing the one found,
//! and listing nodes of a kind in reading order.
//!
//! The reading flow descends into the children of headings and figure
//! wrappers; the heading outline descends into headings only.

use vstd::prelude::*;

use crate::model::{
    base_of, children_of, has_children, with_base, with_children, CiteRef, CndNode, FootnoteRef,
    MetaValue, NodeBase, NodeLocation, NodeRef,
};

use crate::fxmap::fx_get;

verus! {

// ---------------------------------------------------------------------------
// Finding a node by id

/// Whether the node, or a node of its reading flow, has id `id`.
pub open spec fn node_has_id(node: CndNode, id: u128) -> bool
    decreases node,
{
    base_of(node).id == id || match node {
        CndNode::Heading(h) => contains_id(h.children@, id),
        CndNode::Figure(f) => contains_id(f.children@, id),
        _ => false,
    }
}

/// Whether a node of `nodes`, or of their reading flow, has id `id`.
pub open spec fn contains_id(nodes: Seq<CndNode>, id: u128) -> bool
    decreases nodes,
{
    if nodes.len() == 0 {
        false
    } else {
        node_has_id(nodes[0], id) || contains_id(nodes.drop_first(), id)
    }
}

/// An edit of one node's base.
pub enum NodeEdit {
    /// Add a cross-reference edge, unless one to the same target exists.
    AddRef(NodeRef),
    /// Add a footnote edge, unless one to the same pool entry exists.
    AddFootnote(FootnoteRef),
    /// Add a citation edge.
    AddCite(CiteRef),
    /// Set the label.
    SetLabel(String),
    /// Replace the state metadata.
    SetMetadata(Vec<(String, MetaValue)>),
    /// Set the starting page.
    SetLocation(NodeLocation),
}

/// Whether some reference of `refs` points at `id`.
pub open spec fn has_ref_to(refs: Seq<NodeRef>, id: u128) -> bool {
    exists|i: int| 0 <= i < refs.len() && #[trigger] refs[i].id == id
}

/// Whether some footnote edge of `refs` points at `id`.
pub open spec fn has_footnote(refs: Seq<FootnoteRef>, id: u128) -> bool {
    exists|i: int| 0 <= i < refs.len() && #[trigger] refs[i].id == id
}

/// Whether base `b` is base `a` with edit `e` applied.
pub open spec fn edit_applied(a: NodeBase, b: NodeBase, e: NodeEdit) -> bool {
    match e {
        NodeEdit::AddRef(r) => b == NodeBase { refs_to: b.refs_to, ..a } && b.refs_to@ == (if has_ref_to(
            a.refs_to@,
            r.id,
        ) {
            a.refs_to@
        } else {
            a.refs_to@.push(r)
        }),
        NodeEdit::AddFootnote(r) => b == NodeBase { footnotes: b.footnotes, ..a } && b.footnotes@
            == (if has_footnote(a.footnotes@, r.id) {
            a.footnotes@
        } else {
            a.footnotes@.push(r)
        }),
        NodeEdit::AddCite(r) => b == NodeBase { cites: b.cites, ..a } && b.cites@ == a.cites@.push(r),
        NodeEdit::SetLabel(l) => b == NodeBase { label: Some(l), ..a },
        NodeEdit::SetMetadata(m) => b == NodeBase { state_metadata: m, ..a },
        NodeEdit::SetLocation(l) => b == NodeBase { location: l, ..a },
    }
}

/// Whether no two edges of `refs` point at the same node.
pub open spec fn ref_targets_distinct(refs: Seq<NodeRef>) -> bool {
    forall|i: int, j: int| 0 <= i < j < refs.len() ==> #[trigger] refs[i].id != #[trigger] refs[j].id
}

/// Whether no two edges of `refs` point at the same pool entry.
pub open spec fn footnote_targets_distinct(refs: Seq<FootnoteRef>) -> bool {
    forall|i: int, j: int| 0 <= i < j < refs.len() ==> #[trigger] refs[i].id != #[trigger] refs[j].id
}

/// A node keeps one cross-reference edge per target: adding an edge leaves
/// its targets distinct, and the node then has an edge to that target.
pub proof fn law_one_ref_edge_per_target(a: NodeBase, b: NodeBase, r: NodeRef)
    requires
        ref_targets_distinct(a.refs_to@),
        edit_applied(a, b, NodeEdit::AddRef(r)),
    ensures
        ref_targets_distinct(b.refs_to@),
        has_ref_to(b.refs_to@, r.id),
{
    if !has_ref_to(a.refs_to@, r.id) {
        assert(b.refs_to@[a.refs_to@.len() as int] == r);
        assert forall|i: int, j: int| 0 <= i < j < b.refs_to@.len() implies #[trigger] b.refs_to@[i].id
            != #[trigger] b.refs_to@[j].id by {
            assert(b.refs_to@[i] == a.refs_to@[i]);
            if j < a.refs_to@.len() {
                assert(b.refs_to@[j] == a.refs_to@[j]);
            }
        }
    }
}

/// A node keeps one footnote edge per pool entry: adding an edge leaves
/// its entries distinct, and the node then has an edge to that entry.
pub proof fn law_one_footnote_edge_per_entry(a: NodeBase, b: NodeBase, r: FootnoteRef)
    requires
        footnote_targets_distinct(a.footnotes@),
        edit_applied(a, b, NodeEdit::AddFootnote(r)),
    ensures
        footnote_targets_distinct(b.footnotes@),
        has_footnote(b.footnotes@, r.id),
{
    if !has_footnote(a.footnotes@, r.id) {
        assert(b.footnotes@[a.footnotes@.len() as int] == r);
        assert forall|i: int, j: int| 0 <= i < j < b.footnotes@.len() implies #[trigger] b.footnotes@[i].id
            != #[trigger] b.footnotes@[j].id by {
            assert(b.footnotes@[i] == a.footnotes@[i]);
            if j < a.footnotes@.len() {
                assert(b.footnotes@[j] == a.footnotes@[j]);
            }
        }
    }
}

/// The children vector of a heading or figure.
pub open spec fn children_vec(node: CndNode) -> Vec<CndNode> {
    match node {
        CndNode::Heading(n) => n.children,
        CndNode::Figure(n) => n.children,
        _ => vstd::pervasive::arbitrary(),
    }
}

/// Whether `new` is `old` with edit `e` applied to the first node, in
/// reading order, with id `id` (which `old` holds).
pub open spec fn node_edited(old: CndNode, new: CndNode, id: u128, e: NodeEdit) -> bool
    decreases old,
{
    if base_of(old).id == id {
        &&& new == with_base(old, base_of(new))
        &&& edit_applied(base_of(old), base_of(new), e)
    } else {
        &&& has_children(old)
        &&& new == with_children(old, children_vec(new))
        &&& match old {
            CndNode::Heading(h) => edited(h.children@, children_of(new), id, e),
            CndNode::Figure(f) => edited(f.children@, children_of(new), id, e),
            _ => false,
        }
    }
}

/// Whether `new` is `old` with edit `e` applied to the first node, in
/// reading order, with id `id`, and nothing else changed.
pub open spec fn edited(old: Seq<CndNode>, new: Seq<CndNode>, id: u128, e: NodeEdit) -> bool
    decreases old,
{
    if old.len() == 0 {
        false
    } else if node_has_id(old[0], id) {
        &&& new.len() == old.len()
        &&& new.drop_first() == old.drop_first()
        &&& node_edited(old[0], new[0], id, e)
    } else {
        &&& new.len() == old.len()
        &&& new[0] == old[0]
        &&& edited(old.drop_first(), new.drop_first(), id, e)
    }
}

proof fn lemma_contains_prefix(nodes: Seq<CndNode>, id: u128, i: int)
    requires
        0 <= i < nodes.len(),
        !contains_id(nodes.take(i), id),
        !node_has_id(nodes[i], id),
    ensures
        !contains_id(nodes.take(i + 1), id),
    decreases i,
{
    if i > 0 {
        assert(nodes.take(i).drop_first() == nodes.drop_first().take(i - 1));
        assert(nodes.take(i + 1).drop_first() == nodes.drop_first().take(i));
        assert(nodes.take(i)[0] == nodes[0]);
        assert(nodes.take(i + 1)[0] == nodes[0]);
        assert(nodes.drop_first()[i - 1] == nodes[i]);
        assert(!node_has_id(nodes[0], id));
        assert(!contains_id(nodes.drop_first().take(i - 1), id));
        lemma_contains_prefix(nodes.drop_first(), id, i - 1);
        assert(!contains_id(nodes.take(i + 1).drop_first(), id));
    } else {
        assert(nodes.take(1).drop_first().len() == 0);
        assert(!contains_id(nodes.take(1).drop_first(), id));
        assert(nodes.take(1)[0] == nodes[0]);
    }
}

proof fn lemma_contains_whole(nodes: Seq<CndNode>, id: u128)
    requires
        !contains_id(nodes.take(nodes.len() as int), id),
    ensures
        !contains_id(nodes, id),
{
    assert(nodes.take(nodes.len() as int) == nodes);
}

proof fn lemma_edited_at(old: Seq<CndNode>, new: Seq<CndNode>, id: u128, e: NodeEdit, i: int)
    requires
        0 <= i < old.len(),
        !contains_id(old.take(i), id),
        node_has_id(old[i], id),
        new == old.update(i, new[i]),
        node_edited(old[i], new[i], id, e),
    ensures
        edited(old, new, id, e),
        contains_id(old, id),
    decreases i,
{
    if i > 0 {
        assert(old.take(i).drop_first() == old.drop_first().take(i - 1));
        assert(old.take(i)[0] == old[0]);
        assert(new.drop_first() == old.drop_first().update(i - 1, new[i]));
        lemma_edited_at(old.drop_first(), new.drop_first(), id, e, i - 1);
    } else {
        assert(new.drop_first() == old.drop_first());
    }
}

/// Applies `edit` to a base.
fn apply_to_base(b: &mut NodeBase, edit: NodeEdit)
    ensures
        edit_applied(*old(b), *final(b), edit),
{
    match edit {
        NodeEdit::AddRef(r) => {
            let mut k: usize = 0;
            while k < b.refs_to.len()
                invariant
                    0 <= k <= b.refs_to@.len(),
                    *b == *old(b),
                    edit == NodeEdit::AddRef(r),
                    forall|j: int| 0 <= j < k ==> b.refs_to@[j].id != r.id,
                decreases b.refs_to@.len() - k,
            {
                if b.refs_to[k].id == r.id {
                    assert(has_ref_to(b.refs_to@, r.id));
                    return;
                }
                k = k + 1;
            }
            b.refs_to.push(r);
        },
        NodeEdit::AddFootnote(r) => {
            let mut k: usize = 0;
            while k < b.footnotes.len()
                invariant
                    0 <= k <= b.footnotes@.len(),
                    *b == *old(b),
                    edit == NodeEdit::AddFootnote(r),
                    forall|j: int| 0 <= j < k ==> b.footnotes@[j].id != r.id,
                decreases b.footnotes@.len() - k,
            {
                if b.footnotes[k].id == r.id {
                    assert(has_footnote(b.footnotes@, r.id));
                    return;
                }
                k = k + 1;
            }
            b.footnotes.push(r);
        },
        NodeEdit::AddCite(r) => {
            b.cites.push(r);
        },
        NodeEdit::SetLabel(l) => {
            b.label = Some(l);
        },
        NodeEdit::SetMetadata(m) => {
            b.state_metadata = m;
        },
        NodeEdit::SetLocation(l) => {
            b.location = l;
        },
    }
}

/// Whether the node, or a node of its reading flow, has id `id`.
pub fn node_contains(node: &CndNode, id: u128) -> (r: bool)
    ensures
        r == node_has_id(*node, id),
    decreases *node,
{
    if node.id() == id {
        return true;
    }
    match node {
        CndNode::Heading(h) => contains_node(&h.children, id),
        CndNode::Figure(f) => contains_node(&f.children, id),
        _ => false,
    }
}

/// Whether a node of `nodes`, or of their reading flow, has id `id`.
pub fn contains_node(nodes: &Vec<CndNode>, id: u128) -> (r: bool)
    ensures
        r == contains_id(nodes@, id),
    decreases nodes@,
{
    let mut i: usize = 0;
    while i < nodes.len()
        invariant
            0 <= i <= nodes@.len(),
            !contains_id(nodes@.take(i as int), id),
        decreases nodes@.len() - i,
    {
        assert(decreases_to!(nodes@ => nodes@[i as int]));
        if node_contains(&nodes[i], id) {
            proof {
                lemma_found_at(nodes@, id, i as int);
            }
            return true;
        }
        proof {
            lemma_contains_prefix(nodes@, id, i as int);
        }
        i = i + 1;
    }
    proof {
        lemma_contains_whole(nodes@, id);
    }
    false
}

proof fn lemma_found_at(nodes: Seq<CndNode>, id: u128, i: int)
    requires
        0 <= i < nodes.len(),
        node_has_id(nodes[i], id),
    ensures
        contains_id(nodes, id),
    decreases i,
{
    if i > 0 {
        assert(nodes.drop_first()[i - 1] == nodes[i]);
        lemma_found_at(nodes.drop_first(), id, i - 1);
    }
}

/// Applies `edit` to the first node, in reading order, whose id is `id`.
/// Hands the edit back when no node has that id, leaving the tree as it
/// was.
pub fn edit_node(nodes: &mut Vec<CndNode>, id: u128, edit: NodeEdit) -> (r: Option<NodeEdit>)
    ensures
        r is None <==> contains_id(old(nodes)@, id),
        r is None ==> edited(old(nodes)@, final(nodes)@, id, edit),
        r matches Some(e) ==> e == edit && *final(nodes) == *old(nodes),
    decreases old(nodes)@,
{
    let ghost start = nodes@;
    let mut i: usize = 0;
    while i < nodes.len()
        invariant
            0 <= i <= nodes@.len(),
            nodes@ == start,
            *nodes == *old(nodes),
            start == old(nodes)@,
            !contains_id(start.take(i as int), id),
        decreases nodes@.len() - i,
    {
        let ghost here = nodes@[i as int];
        if nodes[i].id() == id {
            let node = &mut nodes[i];
            apply_to_base(node.base_mut(), edit);
            proof {
                lemma_edited_at(start, nodes@, id, edit, i as int);
            }
            return None;
        }
        if node_contains(&nodes[i], id) {
            let node = &mut nodes[i];
            match node.children_mut() {
                Some(children) => {
                    assert(decreases_to!(start => here));
                    let _ = edit_node(children, id, edit);
                },
                None => {},
            }
            proof {
                lemma_edited_at(start, nodes@, id, edit, i as int);
            }
            return None;
        }
        proof {
            lemma_contains_prefix(start, id, i as int);
        }
        i = i + 1;
    }
    proof {
        lemma_contains_whole(start, id);
    }
    Some(edit)
}


// ---------------------------------------------------------------------------
// Updating every node

/// Whether `new` is `old` with every base updated as `ok` relates them and
/// the tree shape unchanged.
pub open spec fn node_mapped(old: CndNode, new: CndNode, ok: spec_fn(NodeBase, NodeBase) -> bool) -> bool
    decreases old,
{
    &&& ok(base_of(old), base_of(new))
    &&& match old {
        CndNode::Heading(h) => {
            &&& new == with_children(with_base(old, base_of(new)), children_vec(new))
            &&& tree_mapped(h.children@, children_of(new), ok)
        },
        CndNode::Figure(f) => {
            &&& new == with_children(with_base(old, base_of(new)), children_vec(new))
            &&& tree_mapped(f.children@, children_of(new), ok)
        },
        _ => new == with_base(old, base_of(new)),
    }
}

/// Whether `new` is `old`, node for node, with every base updated as `ok`
/// relates them.
pub open spec fn tree_mapped(old: Seq<CndNode>, new: Seq<CndNode>, ok: spec_fn(NodeBase, NodeBase) -> bool) -> bool
    decreases old,
{
    &&& new.len() == old.len()
    &&& forall|k: int| 0 <= k < old.len() ==> node_mapped(#[trigger] old[k], new[k], ok)
}

/// Whether `b` is `a` starting on page `page` if `pages` assigns one to its
/// id, and `a` unchanged otherwise.
pub open spec fn page_assigned(pages: Map<u128, NodeLocation>, a: NodeBase, b: NodeBase) -> bool {
    if pages.contains_key(a.id) {
        b == NodeBase { location: pages[a.id], ..a }
    } else {
        b == a
    }
}

/// Sets the starting page of every node, in the whole reading flow, whose
/// id `pages` assigns one to.
pub fn assign_locations(nodes: &mut Vec<CndNode>, pages: &rustc_hash::FxHashMap<u128, NodeLocation>)
    ensures
        tree_mapped(old(nodes)@, final(nodes)@, |a: NodeBase, b: NodeBase| page_assigned(pages@, a, b)),
    decreases old(nodes)@,
{
    let ghost ok = |a: NodeBase, b: NodeBase| page_assigned(pages@, a, b);
    let ghost start = nodes@;
    let mut i: usize = 0;
    while i < nodes.len()
        invariant
            0 <= i <= nodes@.len(),
            nodes@.len() == start.len(),
            start == old(nodes)@,
            ok == (|a: NodeBase, b: NodeBase| page_assigned(pages@, a, b)),
            forall|k: int| 0 <= k < i ==> node_mapped(#[trigger] start[k], nodes@[k], ok),
            forall|k: int| i <= k < start.len() ==> #[trigger] nodes@[k] == start[k],
        decreases nodes@.len() - i,
    {
        let ghost here = nodes@[i as int];
        let node = &mut nodes[i];
        let id = node.id();
        if let Some(location) = fx_get(pages, &id) {
            *node.location_mut() = location;
        }
        match node.children_mut() {
            Some(children) => {
                assert(decreases_to!(start => here));
                assign_locations(children, pages);
            },
            None => {},
        }
        assert(node_mapped(here, nodes@[i as int], ok));
        i = i + 1;
    }
}

} // verus!
