//! The CND document model: the manifest, its node tree and the typed edges
//! between nodes and the out-of-tree pools.
//!
//! Node ids are 128-bit values (the bits of a random UUID); labels are the
//! Typst label text without angle brackets.

use vstd::prelude::*;

verus! {

/// The version of the CND format this exporter writes.
pub const CND_VERSION: &'static str = "0.2.0";

/// A JSON value carried in a node's `state_metadata`. Numbers that are not
/// integers are carried as their decimal text.
pub enum MetaValue {
    Null,
    Bool(bool),
    Int(i64),
    Number(String),
    Str(String),
    Array(Vec<MetaValue>),
    Object(Vec<(String, MetaValue)>),
}

/// The whole CND document.
pub struct CndManifest {
    pub id: Option<u128>,
    pub cnd_version: String,
    pub doc_hash: String,
    pub compiled_at: String,
    pub doc: DocMetadata,
    pub nodes: Vec<CndNode>,
    /// Bibliography pool — target of `cites` edges; always present.
    pub bibliography: Vec<BibEntry>,
    /// Footnote pool — target of `footnotes` edges; always present.
    pub footnotes: Vec<Footnote>,
}

/// A calendar date, as precise as the document states it.
pub struct DocDate {
    pub year: i32,
    pub month: Option<i32>,
    pub day: Option<i32>,
}

/// Document-level metadata.
pub struct DocMetadata {
    pub title: String,
    pub authors: Vec<String>,
    pub date: Option<DocDate>,
    pub keywords: Vec<String>,
    pub description: Option<String>,
    pub lang: Option<String>,
}

/// The page on which a node begins in the compiled document.
#[derive(Clone, Copy, PartialEq, Eq, Structural)]
pub struct NodeLocation {
    pub page: i32,
}

/// A node of the reading flow.
pub enum CndNode {
    Heading(HeadingNode),
    Paragraph(ParagraphNode),
    Table(TableNode),
    Quote(QuoteNode),
    Code(CodeNode),
    Math(MathNode),
    Figure(FigureNode),
    Image(ImageNode),
    List(ListNode),
    Terms(TermsNode),
}

/// Resolved cross-reference edge: target node id, its optional label, and
/// the `[start, end)` code-point span of the marker in the source node's
/// text where the marker sits in one flat string.
pub struct NodeRef {
    pub id: u128,
    pub label: Option<String>,
    pub text_span: Option<Vec<i64>>,
}

/// Forward citation edge into the bibliography pool.
pub struct CiteRef {
    pub id: u128,
    pub label: Option<String>,
    pub span: Option<Vec<i64>>,
    pub form: Option<String>,
    pub supplement: Option<String>,
}

/// Forward footnote edge into the footnote pool.
pub struct FootnoteRef {
    pub id: u128,
    pub label: Option<String>,
    pub span: Option<Vec<i64>>,
}

/// Footnote pool entry, keyed by its rendered ordinal `label`.
pub struct Footnote {
    pub id: u128,
    pub label: String,
    pub text: String,
}

/// Bibliography pool entry. `raw` is the full source entry as JSON text.
pub struct BibEntry {
    pub id: u128,
    pub label: String,
    pub rendered: String,
    pub type_: Option<String>,
    pub authors: Vec<String>,
    pub title: Option<String>,
    pub year: Option<i32>,
    pub container: Option<String>,
    pub doi: Option<String>,
    pub url: Option<String>,
    pub raw: String,
}

/// What every node carries.
pub struct NodeBase {
    pub id: u128,
    pub label: Option<String>,
    pub refs_to: Vec<NodeRef>,
    pub refs_from: Vec<NodeRef>,
    pub cites: Vec<CiteRef>,
    pub footnotes: Vec<FootnoteRef>,
    /// Accumulated `cnd.metadata` state, keys in ascending order.
    pub state_metadata: Vec<(String, MetaValue)>,
    pub location: NodeLocation,
}

pub struct HeadingNode {
    pub base: NodeBase,
    pub level: i32,
    pub numbering: String,
    pub text: String,
    pub heading_path: Vec<String>,
    pub children: Vec<CndNode>,
}

pub struct ParagraphNode {
    pub base: NodeBase,
    pub text: String,
    pub lang: Option<String>,
}

pub struct TableCell {
    pub row: i32,
    pub col: i32,
    pub rowspan: i32,
    pub colspan: i32,
    pub is_header: bool,
    pub text: String,
}

#[derive(Clone, Copy, PartialEq, Eq, Structural)]
pub enum TableKind {
    Table,
    Grid,
}

impl Default for TableKind {
    fn default() -> (k: Self)
        ensures
            k == TableKind::Table,
    {
        TableKind::Table
    }
}

pub struct TableNode {
    pub base: NodeBase,
    pub kind: TableKind,
    /// "data" | "content" hint for text rendering, when the author set one.
    pub content_kind: Option<String>,
    pub cells: Vec<TableCell>,
    pub raw_typst: Option<String>,
}

pub struct QuoteNode {
    pub base: NodeBase,
    pub text: String,
    pub attribution: Option<String>,
    pub block: bool,
    pub lang: Option<String>,
}

pub struct CodeNode {
    pub base: NodeBase,
    pub text: String,
    pub lang: Option<String>,
    pub block: bool,
}

pub struct MathNode {
    pub base: NodeBase,
    pub text: String,
    pub raw_typst: Option<String>,
    pub numbering: Option<String>,
    pub block: bool,
}

/// Captioned/numbered float wrapper; the wrapped content lives in
/// `children`.
pub struct FigureNode {
    pub base: NodeBase,
    pub caption: Option<String>,
    pub fig_number: Option<String>,
    pub kind: Option<String>,
    pub children: Vec<CndNode>,
    pub raw_typst: Option<String>,
}

pub struct ImageNode {
    pub base: NodeBase,
    pub path: Option<String>,
    pub alt: Option<String>,
}

pub struct ListItem {
    pub text: String,
    pub number: Option<i32>,
    pub children: Vec<ListItem>,
}

pub struct ListNode {
    pub base: NodeBase,
    pub ordered: bool,
    pub tight: bool,
    pub items: Vec<ListItem>,
}

/// Single term/description pair of a definition list.
pub struct TermItem {
    pub term: String,
    pub description: String,
}

/// Definition list.
pub struct TermsNode {
    pub base: NodeBase,
    pub tight: bool,
    pub items: Vec<TermItem>,
}

/// The location every node gets before pages are assigned.
pub fn placeholder_location() -> (l: NodeLocation)
    ensures
        l.page == 0,
{
    NodeLocation { page: 0 }
}

/// The default of a table cell's `rowspan` and `colspan`.
pub fn default_one() -> (v: i32)
    ensures
        v == 1,
{
    1
}

/// Whether a span equals its default and is left out of the JSON.
pub fn is_one(v: &i32) -> (r: bool)
    ensures
        r == (*v == 1),
{
    *v == 1
}

/// The default of the `block` and `tight` flags.
pub fn default_true() -> (v: bool)
    ensures
        v,
{
    true
}

/// Whether a flag equals its default `true` and is left out of the JSON.
pub fn is_true(v: &bool) -> (r: bool)
    ensures
        r == *v,
{
    *v
}

/// Whether a table kind equals its default and is left out of the JSON.
pub fn is_table_kind(kind: &TableKind) -> (r: bool)
    ensures
        r == (*kind == TableKind::Table),
{
    *kind == TableKind::Table
}

/// The empty JSON object `{}`, the default of a bibliography entry's raw
/// source.
pub fn default_json_object() -> (s: String)
    ensures
        s@ == seq!['{', '}'],
{
    let mut v: Vec<char> = Vec::new();
    v.push('{');
    v.push('}');
    crate::fmt::string_from_chars(&v)
}

/// Whether `b` is a base with no label, no edges and no metadata.
pub open spec fn is_fresh_base(b: NodeBase, id: u128, location: NodeLocation) -> bool {
    &&& b.id == id
    &&& b.label is None
    &&& b.refs_to@.len() == 0
    &&& b.refs_from@.len() == 0
    &&& b.cites@.len() == 0
    &&& b.footnotes@.len() == 0
    &&& b.state_metadata@.len() == 0
    &&& b.location == location
}

impl NodeRef {
    pub fn new(id: u128, label: Option<String>) -> (r: Self)
        ensures
            r.id == id,
            r.label == label,
            r.text_span is None,
    {
        NodeRef { id, label, text_span: None }
    }
}

impl NodeBase {
    pub fn new(id: u128, location: NodeLocation) -> (b: Self)
        ensures
            is_fresh_base(b, id, location),
    {
        NodeBase {
            id,
            label: None,
            refs_to: Vec::new(),
            refs_from: Vec::new(),
            cites: Vec::new(),
            footnotes: Vec::new(),
            state_metadata: Vec::new(),
            location,
        }
    }
}

impl HeadingNode {
    pub fn new(
        id: u128,
        level: i32,
        numbering: String,
        text: String,
        heading_path: Vec<String>,
        location: NodeLocation,
    ) -> (n: Self)
        ensures
            is_fresh_base(n.base, id, location),
            n.level == level,
            n.numbering == numbering,
            n.text == text,
            n.heading_path == heading_path,
            n.children@.len() == 0,
    {
        HeadingNode {
            base: NodeBase::new(id, location),
            level,
            numbering,
            text,
            heading_path,
            children: Vec::new(),
        }
    }
}

impl ParagraphNode {
    pub fn new(id: u128, text: String, location: NodeLocation) -> (n: Self)
        ensures
            is_fresh_base(n.base, id, location),
            n.text == text,
            n.lang is None,
    {
        ParagraphNode { base: NodeBase::new(id, location), text, lang: None }
    }
}

impl TableNode {
    pub fn new(id: u128, location: NodeLocation) -> (n: Self)
        ensures
            is_fresh_base(n.base, id, location),
            n.kind == TableKind::Table,
            n.content_kind is None,
            n.cells@.len() == 0,
            n.raw_typst is None,
    {
        TableNode {
            base: NodeBase::new(id, location),
            kind: TableKind::Table,
            content_kind: None,
            cells: Vec::new(),
            raw_typst: None,
        }
    }
}

impl QuoteNode {
    pub fn new(id: u128, text: String, location: NodeLocation) -> (n: Self)
        ensures
            is_fresh_base(n.base, id, location),
            n.text == text,
            n.attribution is None,
            n.block,
            n.lang is None,
    {
        QuoteNode {
            base: NodeBase::new(id, location),
            text,
            attribution: None,
            block: true,
            lang: None,
        }
    }
}

impl CodeNode {
    pub fn new(id: u128, text: String, location: NodeLocation) -> (n: Self)
        ensures
            is_fresh_base(n.base, id, location),
            n.text == text,
            n.lang is None,
            n.block,
    {
        CodeNode { base: NodeBase::new(id, location), text, lang: None, block: true }
    }
}

impl MathNode {
    pub fn new(id: u128, text: String, location: NodeLocation) -> (n: Self)
        ensures
            is_fresh_base(n.base, id, location),
            n.text == text,
            n.raw_typst is None,
            n.numbering is None,
            n.block,
    {
        MathNode {
            base: NodeBase::new(id, location),
            text,
            raw_typst: None,
            numbering: None,
            block: true,
        }
    }
}

impl FigureNode {
    pub fn new(id: u128, location: NodeLocation) -> (n: Self)
        ensures
            is_fresh_base(n.base, id, location),
            n.caption is None,
            n.fig_number is None,
            n.kind is None,
            n.children@.len() == 0,
            n.raw_typst is None,
    {
        FigureNode {
            base: NodeBase::new(id, location),
            caption: None,
            fig_number: None,
            kind: None,
            children: Vec::new(),
            raw_typst: None,
        }
    }
}

impl ImageNode {
    pub fn new(id: u128, location: NodeLocation) -> (n: Self)
        ensures
            is_fresh_base(n.base, id, location),
            n.path is None,
            n.alt is None,
    {
        ImageNode { base: NodeBase::new(id, location), path: None, alt: None }
    }
}

impl ListNode {
    pub fn new(id: u128, location: NodeLocation) -> (n: Self)
        ensures
            is_fresh_base(n.base, id, location),
            !n.ordered,
            n.tight,
            n.items@.len() == 0,
    {
        ListNode { base: NodeBase::new(id, location), ordered: false, tight: true, items: Vec::new() }
    }
}

impl TermsNode {
    pub fn new(id: u128, location: NodeLocation) -> (n: Self)
        ensures
            is_fresh_base(n.base, id, location),
            n.tight,
            n.items@.len() == 0,
    {
        TermsNode { base: NodeBase::new(id, location), tight: true, items: Vec::new() }
    }
}

/// The base of a node, whatever its kind.
pub open spec fn base_of(node: CndNode) -> NodeBase {
    match node {
        CndNode::Heading(n) => n.base,
        CndNode::Paragraph(n) => n.base,
        CndNode::Table(n) => n.base,
        CndNode::Quote(n) => n.base,
        CndNode::Code(n) => n.base,
        CndNode::Math(n) => n.base,
        CndNode::Figure(n) => n.base,
        CndNode::Image(n) => n.base,
        CndNode::List(n) => n.base,
        CndNode::Terms(n) => n.base,
    }
}

/// The node with its base replaced by `b`.
pub open spec fn with_base(node: CndNode, b: NodeBase) -> CndNode {
    match node {
        CndNode::Heading(n) => CndNode::Heading(HeadingNode { base: b, ..n }),
        CndNode::Paragraph(n) => CndNode::Paragraph(ParagraphNode { base: b, ..n }),
        CndNode::Table(n) => CndNode::Table(TableNode { base: b, ..n }),
        CndNode::Quote(n) => CndNode::Quote(QuoteNode { base: b, ..n }),
        CndNode::Code(n) => CndNode::Code(CodeNode { base: b, ..n }),
        CndNode::Math(n) => CndNode::Math(MathNode { base: b, ..n }),
        CndNode::Figure(n) => CndNode::Figure(FigureNode { base: b, ..n }),
        CndNode::Image(n) => CndNode::Image(ImageNode { base: b, ..n }),
        CndNode::List(n) => CndNode::List(ListNode { base: b, ..n }),
        CndNode::Terms(n) => CndNode::Terms(TermsNode { base: b, ..n }),
    }
}

/// The reading-flow children of a node: those of headings and figure
/// wrappers; every other node has none.
pub open spec fn children_of(node: CndNode) -> Seq<CndNode> {
    match node {
        CndNode::Heading(n) => n.children@,
        CndNode::Figure(n) => n.children@,
        _ => Seq::empty(),
    }
}

impl CndNode {
    /// The node's id.
    pub fn id(&self) -> (id: u128)
        ensures
            id == base_of(*self).id,
    {
        self.base().id
    }

    pub fn base(&self) -> (b: &NodeBase)
        ensures
            *b == base_of(*self),
    {
        match self {
            CndNode::Heading(n) => &n.base,
            CndNode::Paragraph(n) => &n.base,
            CndNode::Table(n) => &n.base,
            CndNode::Quote(n) => &n.base,
            CndNode::Code(n) => &n.base,
            CndNode::Math(n) => &n.base,
            CndNode::Figure(n) => &n.base,
            CndNode::Image(n) => &n.base,
            CndNode::List(n) => &n.base,
            CndNode::Terms(n) => &n.base,
        }
    }

    pub fn base_mut(&mut self) -> (b: &mut NodeBase)
        ensures
            *b == base_of(*old(self)),
            *final(self) == with_base(*old(self), *final(b)),
    {
        match self {
            CndNode::Heading(n) => &mut n.base,
            CndNode::Paragraph(n) => &mut n.base,
            CndNode::Table(n) => &mut n.base,
            CndNode::Quote(n) => &mut n.base,
            CndNode::Code(n) => &mut n.base,
            CndNode::Math(n) => &mut n.base,
            CndNode::Figure(n) => &mut n.base,
            CndNode::Image(n) => &mut n.base,
            CndNode::List(n) => &mut n.base,
            CndNode::Terms(n) => &mut n.base,
        }
    }

    pub fn location_mut(&mut self) -> (l: &mut NodeLocation)
        ensures
            *l == base_of(*old(self)).location,
            *final(self) == with_base(*old(self), NodeBase { location: *final(l), ..base_of(*old(self)) }),
    {
        &mut self.base_mut().location
    }

    pub fn refs_to_mut(&mut self) -> (r: &mut Vec<NodeRef>)
        ensures
            *r == base_of(*old(self)).refs_to,
            *final(self) == with_base(*old(self), NodeBase { refs_to: *final(r), ..base_of(*old(self)) }),
    {
        &mut self.base_mut().refs_to
    }

    pub fn refs_from_mut(&mut self) -> (r: &mut Vec<NodeRef>)
        ensures
            *r == base_of(*old(self)).refs_from,
            *final(self) == with_base(*old(self), NodeBase { refs_from: *final(r), ..base_of(*old(self)) }),
    {
        &mut self.base_mut().refs_from
    }

    pub fn cites_mut(&mut self) -> (r: &mut Vec<CiteRef>)
        ensures
            *r == base_of(*old(self)).cites,
            *final(self) == with_base(*old(self), NodeBase { cites: *final(r), ..base_of(*old(self)) }),
    {
        &mut self.base_mut().cites
    }

    pub fn footnotes_mut(&mut self) -> (r: &mut Vec<FootnoteRef>)
        ensures
            *r == base_of(*old(self)).footnotes,
            *final(self) == with_base(*old(self), NodeBase { footnotes: *final(r), ..base_of(*old(self)) }),
    {
        &mut self.base_mut().footnotes
    }

    /// The reading-flow children of headings and figure wrappers.
    pub fn children_mut(&mut self) -> (r: Option<&mut Vec<CndNode>>)
        ensures
            match r {
                Some(c) => {
                    &&& has_children(*old(self))
                    &&& c@ == children_of(*old(self))
                    &&& *final(self) == with_children(*old(self), *final(c))
                },
                None => !has_children(*old(self)) && *final(self) == *old(self),
            },
    {
        match self {
            CndNode::Heading(n) => Some(&mut n.children),
            CndNode::Figure(n) => Some(&mut n.children),
            _ => None,
        }
    }
}

/// Whether a node has reading-flow children: headings and figure wrappers.
pub open spec fn has_children(node: CndNode) -> bool {
    node is Heading || node is Figure
}

/// The node with its children replaced by `c` (headings and figures only).
pub open spec fn with_children(node: CndNode, c: Vec<CndNode>) -> CndNode {
    match node {
        CndNode::Heading(n) => CndNode::Heading(HeadingNode { children: c, ..n }),
        CndNode::Figure(n) => CndNode::Figure(FigureNode { children: c, ..n }),
        _ => node,
    }
}

} // verus!
