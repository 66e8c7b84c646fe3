//! Flat text of a node, with the spans of the reference, citation,
//! footnote and link markers it holds.
//!
//! The realized content leaves introspection tags around each marker's
//! rendered text; walking the content in order, the walk sees the text it
//! appends and the tags it passes as a stream of events, and computes each
//! marker's span as the text is built: `[start, end)` code-point offsets
//! into the returned text.

use vstd::prelude::*;

use crate::fmt::{push_str, string_from_chars};
use crate::text::{is_whitespace, is_ws};

verus! {

/// Where a link leads, narrowed to what a document can durably point at.
pub enum LinkDest {
    Url(String),
    Label(String),
    Location(u128),
}

/// A link's destination as the document writes it.
pub enum LinkTarget {
    Label(String),
    Url(String),
    Location(u128),
    /// A page and point position, which carries no label.
    Position,
}

/// A link target narrowed to a durable destination: a position has none.
pub fn link_dest(target: &LinkTarget) -> (r: Option<LinkDest>)
    ensures
        match *target {
            LinkTarget::Label(l) => r == Some(LinkDest::Label(l)),
            LinkTarget::Url(u) => r == Some(LinkDest::Url(u)),
            LinkTarget::Location(loc) => r == Some(LinkDest::Location(loc)),
            LinkTarget::Position => r is None,
        },
{
    match target {
        LinkTarget::Label(l) => Some(LinkDest::Label(l.clone())),
        LinkTarget::Url(u) => Some(LinkDest::Url(u.clone())),
        LinkTarget::Location(loc) => Some(LinkDest::Location(*loc)),
        LinkTarget::Position => None,
    }
}

/// What a marker carries for its resolution.
pub enum MarkerKind {
    /// A cross-reference, to its target label.
    Ref(String),
    /// A citation, by the marker's own location.
    Cite(u128),
    /// A footnote, by the marker's own location.
    Footnote(u128),
    /// A link, to its destination.
    Link(LinkDest),
}

/// A marker with its `[start, end)` code-point span in the node's text.
pub struct ExtractedMarker {
    pub kind: MarkerKind,
    pub start: i64,
    pub end: i64,
}

/// The element a tag brackets, as far as markers go.
pub enum TagKind {
    /// A cross-reference to `label`: a point marker, whose rendered text a
    /// following link marker brackets.
    Ref(String),
    /// The link marker that renders a reference's text.
    LinkMarker,
    Cite,
    Footnote,
    /// A link, with its target.
    Link(LinkTarget),
    Other,
}

/// One step of the walk over a node's content.
pub enum WalkEvent {
    /// A tag opens around element `kind` at location `loc`, if it has one.
    Start { kind: TagKind, loc: Option<u128> },
    /// The tag of the element at `loc` closes.
    End { loc: u128 },
    /// Plain text is appended.
    Text(String),
    /// A hard line break.
    Linebreak,
}

/// A cite, footnote or link marker whose tag is open.
pub struct OpenFrame {
    pub marker_loc: u128,
    pub kind: MarkerKind,
    pub start: i64,
}

/// The walk's state: the text so far, open frames, references awaiting the
/// link marker that renders them, those link markers, and finished
/// markers.
pub struct WalkModel {
    pub text: Seq<char>,
    pub open: Seq<OpenFrame>,
    pub pending_refs: Seq<(String, i64)>,
    pub link_for_ref: Seq<(u128, String, i64)>,
    pub done: Seq<ExtractedMarker>,
}

/// The first pending reference starting at `pos`.
pub open spec fn pending_at(p: Seq<(String, i64)>, pos: i64) -> Option<int>
    decreases p.len(),
{
    if p.len() == 0 {
        None
    } else if p[0].1 == pos {
        Some(0)
    } else {
        match pending_at(p.drop_first(), pos) {
            Some(i) => Some(i + 1),
            None => None,
        }
    }
}

/// The first open frame of the marker at `loc`.
pub open spec fn frame_at(f: Seq<OpenFrame>, loc: u128) -> Option<int>
    decreases f.len(),
{
    if f.len() == 0 {
        None
    } else if f[0].marker_loc == loc {
        Some(0)
    } else {
        match frame_at(f.drop_first(), loc) {
            Some(i) => Some(i + 1),
            None => None,
        }
    }
}

/// The first link marker at `loc` rendering a reference.
pub open spec fn link_at(f: Seq<(u128, String, i64)>, loc: u128) -> Option<int>
    decreases f.len(),
{
    if f.len() == 0 {
        None
    } else if f[0].0 == loc {
        Some(0)
    } else {
        match link_at(f.drop_first(), loc) {
            Some(i) => Some(i + 1),
            None => None,
        }
    }
}

/// The frame a tag of element `kind` at `loc` opens at position `pos`:
/// citations, footnotes and links to a durable destination bracket their
/// own rendered text.
pub open spec fn frame_for(kind: TagKind, loc: u128, pos: i64) -> Option<OpenFrame> {
    match kind {
        TagKind::Cite => Some(OpenFrame { marker_loc: loc, kind: MarkerKind::Cite(loc), start: pos }),
        TagKind::Footnote => Some(OpenFrame { marker_loc: loc, kind: MarkerKind::Footnote(loc), start: pos }),
        TagKind::Link(LinkTarget::Label(l)) => Some(
            OpenFrame { marker_loc: loc, kind: MarkerKind::Link(LinkDest::Label(l)), start: pos },
        ),
        TagKind::Link(LinkTarget::Url(u)) => Some(
            OpenFrame { marker_loc: loc, kind: MarkerKind::Link(LinkDest::Url(u)), start: pos },
        ),
        TagKind::Link(LinkTarget::Location(l)) => Some(
            OpenFrame { marker_loc: loc, kind: MarkerKind::Link(LinkDest::Location(l)), start: pos },
        ),
        _ => None,
    }
}

/// The walk after event `e`.
pub open spec fn walk_event(s: WalkModel, e: WalkEvent) -> WalkModel {
    let pos = s.text.len() as i64;
    match e {
        WalkEvent::Text(t) => WalkModel { text: s.text + t@, ..s },
        WalkEvent::Linebreak => if s.text.len() > 0 && !is_ws(s.text.last()) {
            WalkModel { text: s.text.push(' '), ..s }
        } else {
            s
        },
        WalkEvent::Start { kind, loc } => match loc {
            None => s,
            Some(loc) => match kind {
                TagKind::Ref(label) => WalkModel { pending_refs: s.pending_refs.push((label, pos)), ..s },
                TagKind::LinkMarker => match pending_at(s.pending_refs, pos) {
                    None => s,
                    Some(i) => WalkModel {
                        pending_refs: s.pending_refs.remove(i),
                        link_for_ref: s.link_for_ref.push((loc, s.pending_refs[i].0, s.pending_refs[i].1)),
                        ..s
                    },
                },
                _ => match frame_for(kind, loc, pos) {
                    Some(f) => WalkModel { open: s.open.push(f), ..s },
                    None => s,
                },
            },
        },
        WalkEvent::End { loc } => match frame_at(s.open, loc) {
            Some(i) => WalkModel {
                open: s.open.remove(i),
                done: s.done.push(ExtractedMarker { kind: s.open[i].kind, start: s.open[i].start, end: pos }),
                ..s
            },
            None => match link_at(s.link_for_ref, loc) {
                Some(i) => WalkModel {
                    link_for_ref: s.link_for_ref.remove(i),
                    done: s.done.push(
                        ExtractedMarker {
                            kind: MarkerKind::Ref(s.link_for_ref[i].1),
                            start: s.link_for_ref[i].2,
                            end: pos,
                        },
                    ),
                    ..s
                },
                None => s,
            },
        },
    }
}

/// The walk over events `es`, from nothing.
pub open spec fn walk_events(es: Seq<WalkEvent>) -> WalkModel
    decreases es.len(),
{
    if es.len() == 0 {
        WalkModel {
            text: Seq::empty(),
            open: Seq::empty(),
            pending_refs: Seq::empty(),
            link_for_ref: Seq::empty(),
            done: Seq::empty(),
        }
    } else {
        walk_event(walk_events(es.drop_last()), es.last())
    }
}

/// The markers of the link frames still open at the end, each with an
/// empty span at its start, in order.
pub open spec fn open_links(f: Seq<OpenFrame>) -> Seq<ExtractedMarker>
    decreases f.len(),
{
    if f.len() == 0 {
        Seq::empty()
    } else {
        let prev = open_links(f.drop_last());
        match f.last().kind {
            MarkerKind::Link(_) => prev.push(
                ExtractedMarker { kind: f.last().kind, start: f.last().start, end: f.last().start },
            ),
            _ => prev,
        }
    }
}

/// How many characters the walk over `es` can append at most.
pub open spec fn text_bound(es: Seq<WalkEvent>) -> nat
    decreases es.len(),
{
    if es.len() == 0 {
        0
    } else {
        text_bound(es.drop_last()) + match es.last() {
            WalkEvent::Text(t) => t@.len(),
            WalkEvent::Linebreak => 1nat,
            _ => 0nat,
        }
    }
}

/// The walk's state.
pub struct WalkState {
    pub text: Vec<char>,
    pub open: Vec<OpenFrame>,
    pub pending_refs: Vec<(String, i64)>,
    pub link_for_ref: Vec<(u128, String, i64)>,
    pub done: Vec<ExtractedMarker>,
}

impl View for WalkState {
    type V = WalkModel;

    open spec fn view(&self) -> WalkModel {
        WalkModel {
            text: self.text@,
            open: self.open@,
            pending_refs: self.pending_refs@,
            link_for_ref: self.link_for_ref@,
            done: self.done@,
        }
    }
}

proof fn lemma_pending_bounds(p: Seq<(String, i64)>, pos: i64)
    ensures
        pending_at(p, pos) matches Some(i) ==> 0 <= i < p.len(),
    decreases p.len(),
{
    if p.len() > 0 && p[0].1 != pos {
        lemma_pending_bounds(p.drop_first(), pos);
    }
}

proof fn lemma_frame_bounds(f: Seq<OpenFrame>, loc: u128)
    ensures
        frame_at(f, loc) matches Some(i) ==> 0 <= i < f.len(),
    decreases f.len(),
{
    if f.len() > 0 && f[0].marker_loc != loc {
        lemma_frame_bounds(f.drop_first(), loc);
    }
}

proof fn lemma_link_bounds(f: Seq<(u128, String, i64)>, loc: u128)
    ensures
        link_at(f, loc) matches Some(i) ==> 0 <= i < f.len(),
    decreases f.len(),
{
    if f.len() > 0 && f[0].0 != loc {
        lemma_link_bounds(f.drop_first(), loc);
    }
}

fn find_pending(p: &Vec<(String, i64)>, pos: i64) -> (r: Option<usize>)
    ensures
        r == (match pending_at(p@, pos) {
            Some(i) => Some(i as usize),
            None => None::<usize>,
        }),
        r matches Some(i) ==> i < p@.len(),
{
    let mut i: usize = 0;
    assert(p@.skip(0) == p@);
    while i < p.len()
        invariant
            0 <= i <= p@.len(),
            pending_at(p@, pos) == (match pending_at(p@.skip(i as int), pos) {
                Some(j) => Some(j + i),
                None => None::<int>,
            }),
        decreases p@.len() - i,
    {
        assert(p@.skip(i as int)[0] == p@[i as int]);
        assert(p@.skip(i as int).drop_first() == p@.skip(i + 1));
        if p[i].1 == pos {
            return Some(i);
        }
        i += 1;
    }
    None
}

fn find_frame(f: &Vec<OpenFrame>, loc: u128) -> (r: Option<usize>)
    ensures
        r == (match frame_at(f@, loc) {
            Some(i) => Some(i as usize),
            None => None::<usize>,
        }),
        r matches Some(i) ==> i < f@.len(),
{
    let mut i: usize = 0;
    assert(f@.skip(0) == f@);
    while i < f.len()
        invariant
            0 <= i <= f@.len(),
            frame_at(f@, loc) == (match frame_at(f@.skip(i as int), loc) {
                Some(j) => Some(j + i),
                None => None::<int>,
            }),
        decreases f@.len() - i,
    {
        assert(f@.skip(i as int)[0] == f@[i as int]);
        assert(f@.skip(i as int).drop_first() == f@.skip(i + 1));
        if f[i].marker_loc == loc {
            return Some(i);
        }
        i += 1;
    }
    None
}

fn find_link(f: &Vec<(u128, String, i64)>, loc: u128) -> (r: Option<usize>)
    ensures
        r == (match link_at(f@, loc) {
            Some(i) => Some(i as usize),
            None => None::<usize>,
        }),
        r matches Some(i) ==> i < f@.len(),
{
    let mut i: usize = 0;
    assert(f@.skip(0) == f@);
    while i < f.len()
        invariant
            0 <= i <= f@.len(),
            link_at(f@, loc) == (match link_at(f@.skip(i as int), loc) {
                Some(j) => Some(j + i),
                None => None::<int>,
            }),
        decreases f@.len() - i,
    {
        assert(f@.skip(i as int)[0] == f@[i as int]);
        assert(f@.skip(i as int).drop_first() == f@.skip(i + 1));
        if f[i].0 == loc {
            return Some(i);
        }
        i += 1;
    }
    None
}

fn open_frame(kind: TagKind, loc: u128, pos: i64) -> (r: Option<OpenFrame>)
    ensures
        r == frame_for(kind, loc, pos),
{
    match kind {
        TagKind::Cite => Some(OpenFrame { marker_loc: loc, kind: MarkerKind::Cite(loc), start: pos }),
        TagKind::Footnote => Some(OpenFrame { marker_loc: loc, kind: MarkerKind::Footnote(loc), start: pos }),
        TagKind::Link(target) => match target {
            LinkTarget::Label(l) => Some(
                OpenFrame { marker_loc: loc, kind: MarkerKind::Link(LinkDest::Label(l)), start: pos },
            ),
            LinkTarget::Url(u) => Some(
                OpenFrame { marker_loc: loc, kind: MarkerKind::Link(LinkDest::Url(u)), start: pos },
            ),
            LinkTarget::Location(l) => Some(
                OpenFrame { marker_loc: loc, kind: MarkerKind::Link(LinkDest::Location(l)), start: pos },
            ),
            LinkTarget::Position => None,
        },
        _ => None,
    }
}

impl WalkState {
    /// Takes one step of the walk.
    pub fn step(&mut self, e: WalkEvent)
        requires
            old(self).text@.len() < i64::MAX,
        ensures
            final(self)@ == walk_event(old(self)@, e),
    {
        let pos = self.text.len() as i64;
        assert(pos == old(self)@.text.len() as i64);
        let plen = self.pending_refs.len();
        let olen = self.open.len();
        let llen = self.link_for_ref.len();
        let ghost ge = e;
        match e {
            WalkEvent::Text(t) => {
                push_str(&mut self.text, t.as_str());
                assert(self@.text == walk_event(old(self)@, ge).text);
            },
            WalkEvent::Linebreak => {
                let n = self.text.len();
                if n > 0 && !is_whitespace(self.text[n - 1]) {
                    self.text.push(' ');
                }
                assert(self@.text == walk_event(old(self)@, ge).text);
            },
            WalkEvent::Start { kind, loc } => {
                let loc = match loc {
                    Some(l) => l,
                    None => return,
                };
                match kind {
                    TagKind::Ref(label) => {
                        self.pending_refs.push((label, pos));
                    },
                    TagKind::LinkMarker => {
                        proof {
                            lemma_pending_bounds(self.pending_refs@, pos);
                        }
                        match find_pending(&self.pending_refs, pos) {
                            Some(i) => {
                                assert(pending_at(old(self)@.pending_refs, pos) == Some(i as int));
                                assert(ge matches WalkEvent::Start { kind: TagKind::LinkMarker, loc: Some(l) } && l == loc);
                                let (label, start) = self.pending_refs.remove(i);
                                self.link_for_ref.push((loc, label, start));
                                assert(self@.link_for_ref == walk_event(old(self)@, ge).link_for_ref);
                                assert(self@.pending_refs == walk_event(old(self)@, ge).pending_refs);
                            },
                            None => {},
                        }
                    },
                    _ => {
                        match open_frame(kind, loc, pos) {
                            Some(f) => self.open.push(f),
                            None => {},
                        }
                    },
                }
            },
            WalkEvent::End { loc } => {
                proof {
                    lemma_frame_bounds(self.open@, loc);
                    lemma_link_bounds(self.link_for_ref@, loc);
                }
                match find_frame(&self.open, loc) {
                    Some(i) => {
                        let f = self.open.remove(i);
                        self.done.push(ExtractedMarker { kind: f.kind, start: f.start, end: pos });
                        assert(self@.done == walk_event(old(self)@, ge).done);
                        assert(self@.open == walk_event(old(self)@, ge).open);
                    },
                    None => {
                        match find_link(&self.link_for_ref, loc) {
                            Some(i) => {
                                let (_, label, start) = self.link_for_ref.remove(i);
                                self.done.push(ExtractedMarker { kind: MarkerKind::Ref(label), start, end: pos });
                            },
                            None => {},
                        }
                    },
                }
            },
        }
    }
}

proof fn lemma_walk_len(es: Seq<WalkEvent>)
    ensures
        walk_events(es).text.len() <= text_bound(es),
    decreases es.len(),
{
    if es.len() > 0 {
        lemma_walk_len(es.drop_last());
    }
}

/// The flat text of a node and the markers in it, from the events of the
/// walk over its content; a link whose tag opened in the node but never
/// closed there gets an empty span at its start.
pub fn extract_with_markers(events: Vec<WalkEvent>) -> (r: (String, Vec<ExtractedMarker>))
    requires
        text_bound(events@) < i64::MAX,
    ensures
        r.0@ == walk_events(events@).text,
        r.1@ == walk_events(events@).done + open_links(walk_events(events@).open),
{
    let ghost es = events@;
    let total = events.len();
    let mut rest = events;
    let mut state = WalkState {
        text: Vec::new(),
        open: Vec::new(),
        pending_refs: Vec::new(),
        link_for_ref: Vec::new(),
        done: Vec::new(),
    };
    let mut k: usize = 0;
    assert(state@ =~= walk_events(es.take(0)));
    while rest.len() > 0
        invariant
            0 <= k <= es.len(),
            total == es.len(),
            text_bound(es) < i64::MAX,
            rest@ == es.skip(k as int),
            state@ == walk_events(es.take(k as int)),
        decreases rest@.len(),
    {
        assert(k < es.len());
        let e = rest.remove(0);
        proof {
            assert(e == es[k as int]);
            assert(es.take(k + 1).drop_last() == es.take(k as int));
            assert(es.take(k + 1).last() == es[k as int]);
            lemma_walk_len(es.take(k as int));
            lemma_bound_prefix(es, k as int);
        }
        state.step(e);
        k += 1;
        assert(rest@ =~= es.skip(k as int));
    }
    assert(es.take(k as int) == es);
    let ghost before = state.done@;
    let ghost opened = state.open@;
    let mut i: usize = 0;
    while i < state.open.len()
        invariant
            0 <= i <= state.open@.len(),
            state.open@ == opened,
            state.text@ == walk_events(es).text,
            opened == walk_events(es).open,
            before == walk_events(es).done,
            state.done@ == before + open_links(opened.take(i as int)),
        decreases state.open@.len() - i,
    {
        assert(opened.take(i + 1).drop_last() == opened.take(i as int));
        assert(opened.take(i + 1).last() == opened[i as int]);
        let f = &state.open[i];
        match &f.kind {
            MarkerKind::Link(d) => {
                let kind = MarkerKind::Link(copy_dest(d));
                state.done.push(ExtractedMarker { kind, start: f.start, end: f.start });
            },
            _ => {},
        }
        i += 1;
    }
    assert(opened.take(i as int) == opened);
    (string_from_chars(&state.text), state.done)
}

fn copy_dest(d: &LinkDest) -> (r: LinkDest)
    ensures
        r == *d,
{
    match d {
        LinkDest::Url(u) => LinkDest::Url(u.clone()),
        LinkDest::Label(l) => LinkDest::Label(l.clone()),
        LinkDest::Location(l) => LinkDest::Location(*l),
    }
}

proof fn lemma_bound_prefix(es: Seq<WalkEvent>, k: int)
    requires
        0 <= k <= es.len(),
    ensures
        text_bound(es.take(k)) <= text_bound(es),
    decreases es.len() - k,
{
    if k < es.len() {
        lemma_bound_prefix(es, k + 1);
        assert(es.take(k + 1).drop_last() == es.take(k));
    } else {
        assert(es.take(k) == es);
    }
}

/// A citation's form.
pub enum CitationForm {
    Normal,
    Prose,
    Full,
    Author,
    Year,
}

/// The lowercase name of a citation form; a suppressed citation (no form)
/// is `none`.
pub fn citation_form_str(form: Option<CitationForm>) -> (r: Option<String>)
    ensures
        r matches Some(s) && s@ == (match form {
            None => seq!['n', 'o', 'n', 'e'],
            Some(CitationForm::Normal) => seq!['n', 'o', 'r', 'm', 'a', 'l'],
            Some(CitationForm::Prose) => seq!['p', 'r', 'o', 's', 'e'],
            Some(CitationForm::Full) => seq!['f', 'u', 'l', 'l'],
            Some(CitationForm::Author) => seq!['a', 'u', 't', 'h', 'o', 'r'],
            Some(CitationForm::Year) => seq!['y', 'e', 'a', 'r'],
        }),
{
    let name: &str = match form {
        None => "none",
        Some(CitationForm::Normal) => "normal",
        Some(CitationForm::Prose) => "prose",
        Some(CitationForm::Full) => "full",
        Some(CitationForm::Author) => "author",
        Some(CitationForm::Year) => "year",
    };
    proof {
        reveal_strlit("none");
        reveal_strlit("normal");
        reveal_strlit("prose");
        reveal_strlit("full");
        reveal_strlit("author");
        reveal_strlit("year");
    }
    let mut out: Vec<char> = Vec::new();
    push_str(&mut out, name);
    Some(string_from_chars(&out))
}

} // verus!
