//! Containment between laid-out elements, read off the frames.
//!
//! Walking the frame tree depth first yields the introspection tags in
//! document order, as balanced start and end events; a stack of the
//! elements still open reconstructs which element sits inside which. The
//! walk is given as that flat stream of events.

use vstd::prelude::*;

use rustc_hash::{FxHashMap, FxHashSet};

use crate::fxmap::{fx_get, fx_insert, fx_set_contains, fx_set_insert};

verus! {

/// A half-open byte range in one source file.
#[derive(Clone, Copy, PartialEq, Eq, Structural)]
pub struct SourceRange {
    pub file: u16,
    pub start: usize,
    pub end: usize,
}

/// Whether `inner` lies within `outer`, in the same file.
pub open spec fn range_within(outer: SourceRange, inner: SourceRange) -> bool {
    outer.file == inner.file && inner.start >= outer.start && inner.end <= outer.end
}

/// Whether `inner` lies within `outer`, in the same file.
pub fn contains(outer: SourceRange, inner: SourceRange) -> (r: bool)
    ensures
        r == range_within(outer, inner),
{
    outer.file == inner.file && inner.start >= outer.start && inner.end <= outer.end
}

/// Whether `inner` lies within `outer` and is not `outer` itself.
pub open spec fn strictly_nested(inner: SourceRange, outer: SourceRange) -> bool {
    range_within(outer, inner) && inner != outer
}

/// Whether `inner` lies within `outer` and is not `outer` itself.
pub fn is_strictly_nested(inner: SourceRange, outer: SourceRange) -> (r: bool)
    ensures
        r == strictly_nested(inner, outer),
{
    contains(outer, inner) && !(inner.file == outer.file && inner.start == outer.start && inner.end
        == outer.end)
}

/// Whether `inner` lies strictly within one of `ranges`.
pub open spec fn nested_in_any(inner: SourceRange, ranges: Seq<SourceRange>) -> bool {
    exists|i: int| 0 <= i < ranges.len() && strictly_nested(inner, #[trigger] ranges[i])
}

fn any_strictly_nesting(inner: SourceRange, ranges: &Vec<SourceRange>) -> (r: bool)
    ensures
        r == nested_in_any(inner, ranges@),
{
    let mut i: usize = 0;
    while i < ranges.len()
        invariant
            0 <= i <= ranges@.len(),
            forall|j: int| 0 <= j < i ==> !strictly_nested(inner, #[trigger] ranges@[j]),
        decreases ranges@.len() - i,
    {
        if is_strictly_nested(inner, ranges[i]) {
            return true;
        }
        i += 1;
    }
    false
}

/// Whether a list or enum is nested in another and so rendered as part of
/// it rather than as a node of its own: it sits inline in an item's body
/// (`inline_nested`), or its source range `inner` lies strictly within that
/// of a list, an enum or a term item (`list_enum_ranges`), or of a list or
/// enum item (`item_ranges`).
pub fn is_nested_list_or_enum(
    inline_nested: bool,
    inner: Option<SourceRange>,
    list_enum_ranges: &Vec<SourceRange>,
    item_ranges: &Vec<SourceRange>,
) -> (r: bool)
    ensures
        r == (inline_nested || (inner matches Some(i) && (nested_in_any(i, list_enum_ranges@)
            || nested_in_any(i, item_ranges@)))),
{
    if inline_nested {
        return true;
    }
    let inner = match inner {
        Some(i) => i,
        None => return false,
    };
    any_strictly_nesting(inner, list_enum_ranges) || any_strictly_nesting(inner, item_ranges)
}

/// `range` widened by each range of `found` in file `file`, in order: the
/// smallest range holding them all.
pub open spec fn span_union(range: Option<SourceRange>, file: u16, found: Seq<Option<SourceRange>>) -> Option<
    SourceRange,
>
    decreases found.len(),
{
    if found.len() == 0 {
        range
    } else {
        let prev = span_union(range, file, found.drop_last());
        match found.last() {
            Some(f) => if f.file == file {
                match prev {
                    Some(cur) => Some(
                        SourceRange {
                            file,
                            start: if cur.start <= f.start {
                                cur.start
                            } else {
                                f.start
                            },
                            end: if cur.end >= f.end {
                                cur.end
                            } else {
                                f.end
                            },
                        },
                    ),
                    None => Some(f),
                }
            } else {
                prev
            },
            None => prev,
        }
    }
}

/// How far an element's content reaches in the source: its own range
/// `own`, widened by the ranges `found` of everything it holds that lie in
/// its file (that of `own`, else `span_file`, the file its span is in);
/// nothing when neither gives a file.
pub fn content_range(own: Option<SourceRange>, span_file: Option<u16>, found: &Vec<Option<SourceRange>>) -> (r:
    Option<SourceRange>)
    ensures
        r == (match (match own {
            Some(o) => Some(o.file),
            None => span_file,
        }) {
            Some(file) => span_union(own, file, found@),
            None => None,
        }),
{
    let file = match own {
        Some(o) => o.file,
        None => match span_file {
            Some(f) => f,
            None => return None,
        },
    };
    let mut range = own;
    let mut i: usize = 0;
    while i < found.len()
        invariant
            0 <= i <= found@.len(),
            range == span_union(own, file, found@.take(i as int)),
        decreases found@.len() - i,
    {
        match found[i] {
            Some(f) => {
                if f.file == file {
                    range = Some(
                        match range {
                            Some(cur) => SourceRange {
                                file,
                                start: if cur.start <= f.start {
                                    cur.start
                                } else {
                                    f.start
                                },
                                end: if cur.end >= f.end {
                                    cur.end
                                } else {
                                    f.end
                                },
                            },
                            None => f,
                        },
                    );
                }
            },
            None => {},
        }
        assert(found@.take(i + 1).drop_last() == found@.take(i as int));
        i += 1;
    }
    assert(found@.take(i as int) == found@);
    range
}

/// The kinds of element the walk tells apart.
#[derive(Clone, Copy, PartialEq, Eq, Structural)]
pub enum ElemKind {
    Paragraph,
    Artifact,
    Heading,
    Quote,
    List,
    Enum,
    Terms,
    Raw,
    Equation,
    Figure,
    Table,
    FootnoteEntry,
    Bibliography,
    Outline,
    Other,
}

/// Whether a paragraph laid out inside an element of kind `kind` is a
/// second copy of text the document carries elsewhere: the element is
/// emitted as a node rendering its own content, or (the outline, a
/// footnote or bibliography entry) repeats text a node or pool carries.
/// Layout-only containers produce no node and do not count.
pub open spec fn emitted_container(kind: ElemKind) -> bool {
    !(kind is Paragraph || kind is Artifact || kind is Other)
}

/// Whether elements of kind `kind` are containers emitted as a node or
/// repeating text carried elsewhere.
pub fn is_emitted_container(kind: ElemKind) -> (r: bool)
    ensures
        r == emitted_container(kind),
{
    match kind {
        ElemKind::Heading | ElemKind::Quote | ElemKind::List | ElemKind::Enum | ElemKind::Terms
        | ElemKind::Raw | ElemKind::Equation | ElemKind::Figure | ElemKind::Table
        | ElemKind::FootnoteEntry | ElemKind::Bibliography | ElemKind::Outline => true,
        ElemKind::Paragraph | ElemKind::Artifact | ElemKind::Other => false,
    }
}

/// One step of the depth-first walk over the laid-out frames.
#[derive(Clone, Copy, PartialEq, Eq, Structural)]
pub enum FrameEvent {
    /// An element with a location starts; for a paragraph, how far its
    /// content reaches in the source, if that is known.
    Start { location: u128, kind: ElemKind, range: Option<SourceRange> },
    /// The element at `location` ends.
    End { location: u128 },
    /// A run of glyphs is drawn.
    Text,
}

/// An element still open during the walk.
#[derive(Clone, Copy, PartialEq, Eq, Structural)]
pub struct Open {
    pub location: u128,
    /// For a paragraph, its source range if known; `None` for other
    /// elements.
    pub par_range: Option<Option<SourceRange>>,
    pub is_artifact: bool,
    pub is_container: bool,
    /// Glyph runs drawn for this paragraph inside and outside content
    /// marked as an artifact.
    pub glyphs_in_artifact: u32,
    pub glyphs_outside_artifact: u32,
}

/// The paragraph a paragraph with range `range` is part of: the nearest
/// open paragraph, when its known range holds `range`.
pub open spec fn covering_par_spec(stack: Seq<Open>, range: Option<SourceRange>) -> Option<u128>
    decreases stack.len(),
{
    match range {
        None => None,
        Some(r) => if stack.len() == 0 {
            None
        } else if stack.last().par_range is Some {
            match stack.last().par_range.unwrap() {
                Some(parent) => if range_within(parent, r) {
                    Some(stack.last().location)
                } else {
                    None
                },
                None => None,
            }
        } else {
            covering_par_spec(stack.drop_last(), range)
        },
    }
}

/// The paragraph a paragraph with range `range`, starting above the open
/// elements `stack`, is part of.
pub fn covering_par(stack: &Vec<Open>, range: Option<SourceRange>) -> (r: Option<u128>)
    ensures
        r == covering_par_spec(stack@, range),
{
    let inner = match range {
        Some(x) => x,
        None => return None,
    };
    let mut i: usize = stack.len();
    assert(stack@.take(i as int) == stack@);
    while i > 0
        invariant
            0 <= i <= stack@.len(),
            range == Some(inner),
            covering_par_spec(stack@, range) == covering_par_spec(stack@.take(i as int), range),
        decreases i,
    {
        assert(stack@.take(i as int).last() == stack@[i - 1]);
        assert(stack@.take(i as int).drop_last() == stack@.take(i - 1));
        match stack[i - 1].par_range {
            Some(pr) => {
                let ghost t = stack@.take(i as int);
                assert(t.last().par_range == Some(pr));
                assert(range == Some(inner));
                assert(covering_par_spec(t, range) == match pr {
                    Some(parent) => if range_within(parent, inner) {
                        Some(t.last().location)
                    } else {
                        None
                    },
                    None => None,
                });
                return match pr {
                    Some(parent) => if contains(parent, inner) {
                        Some(stack[i - 1].location)
                    } else {
                        None
                    },
                    None => None,
                };
            },
            None => {},
        }
        i -= 1;
    }
    None
}

proof fn lemma_last_open_bounds(stack: Seq<Open>, location: u128)
    ensures
        last_open_at(stack, location) matches Some(x) ==> 0 <= x < stack.len() && stack[x].location
            == location,
    decreases stack.len(),
{
    if stack.len() > 0 && stack.last().location != location {
        lemma_last_open_bounds(stack.drop_last(), location);
    }
}

/// The last element of `stack` open at `location`.
fn find_open(stack: &Vec<Open>, location: u128) -> (r: Option<usize>)
    ensures
        r == (match last_open_at(stack@, location) {
            Some(x) => Some(x as usize),
            None => None::<usize>,
        }),
        r matches Some(x) ==> x < stack@.len(),
{
    let mut i: usize = stack.len();
    assert(stack@.take(i as int) == stack@);
    while i > 0
        invariant
            0 <= i <= stack@.len(),
            last_open_at(stack@, location) == last_open_at(stack@.take(i as int), location),
        decreases i,
    {
        assert(stack@.take(i as int).last() == stack@[i - 1]);
        assert(stack@.take(i as int).drop_last() == stack@.take(i - 1));
        if stack[i - 1].location == location {
            return Some(i - 1);
        }
        i -= 1;
    }
    None
}

/// What the walk has found so far.
pub struct AncestryModel {
    pub covered_by_par: Map<u128, u128>,
    pub in_artifact: Set<u128>,
    pub in_container: Set<u128>,
    pub stack: Seq<Open>,
}

/// Whether some open element is an artifact.
pub open spec fn any_artifact(stack: Seq<Open>) -> bool {
    exists|i: int| 0 <= i < stack.len() && (#[trigger] stack[i]).is_artifact
}

/// Whether some open element is an emitted container.
pub open spec fn any_container(stack: Seq<Open>) -> bool {
    exists|i: int| 0 <= i < stack.len() && (#[trigger] stack[i]).is_container
}

/// The last open element at `location`, if one is open.
pub open spec fn last_open_at(stack: Seq<Open>, location: u128) -> Option<int>
    decreases stack.len(),
{
    if stack.len() == 0 {
        None
    } else if stack.last().location == location {
        Some(stack.len() - 1)
    } else {
        last_open_at(stack.drop_last(), location)
    }
}

/// Whether a closing element is a paragraph all of whose glyphs were drawn
/// inside an artifact.
pub open spec fn artifact_par(o: Open) -> bool {
    o.par_range is Some && o.glyphs_outside_artifact == 0 && o.glyphs_in_artifact > 0
}

/// The locations of the paragraphs among `closing` whose glyphs were all
/// drawn inside an artifact.
pub open spec fn artifact_pars(closing: Seq<Open>) -> Set<u128> {
    Set::new(|l: u128| exists|i: int| 0 <= i < closing.len() && #[trigger] closing[i].location == l && artifact_par(closing[i]))
}

/// An open paragraph's glyph counts after a glyph run.
pub open spec fn count_glyph(o: Open, in_artifact: bool) -> Open {
    if o.par_range is Some {
        if in_artifact {
            Open { glyphs_in_artifact: (o.glyphs_in_artifact + 1) as u32, ..o }
        } else {
            Open { glyphs_outside_artifact: (o.glyphs_outside_artifact + 1) as u32, ..o }
        }
    } else {
        o
    }
}

/// The walk after event `e`.
pub open spec fn walk_step(s: AncestryModel, e: FrameEvent) -> AncestryModel {
    match e {
        FrameEvent::Start { location, kind, range } => {
            let par_range = if kind is Paragraph {
                Some(range)
            } else {
                None
            };
            let covered = if kind is Paragraph {
                match covering_par_spec(s.stack, range) {
                    Some(parent) => s.covered_by_par.insert(location, parent),
                    None => s.covered_by_par,
                }
            } else {
                s.covered_by_par
            };
            AncestryModel {
                covered_by_par: covered,
                in_artifact: if any_artifact(s.stack) {
                    s.in_artifact.insert(location)
                } else {
                    s.in_artifact
                },
                in_container: if any_container(s.stack) {
                    s.in_container.insert(location)
                } else {
                    s.in_container
                },
                stack: s.stack.push(
                    Open {
                        location,
                        par_range,
                        is_artifact: kind is Artifact,
                        is_container: emitted_container(kind),
                        glyphs_in_artifact: 0,
                        glyphs_outside_artifact: 0,
                    },
                ),
            }
        },
        FrameEvent::End { location } => match last_open_at(s.stack, location) {
            None => s,
            Some(index) => AncestryModel {
                in_artifact: s.in_artifact.union(artifact_pars(s.stack.skip(index))),
                stack: s.stack.take(index),
                ..s
            },
        },
        FrameEvent::Text => AncestryModel {
            stack: s.stack.map_values(|o: Open| count_glyph(o, any_artifact(s.stack))),
            ..s
        },
    }
}

/// The walk's findings after events `es`, from nothing open.
pub open spec fn walk_all(es: Seq<FrameEvent>) -> AncestryModel
    decreases es.len(),
{
    if es.len() == 0 {
        AncestryModel {
            covered_by_par: Map::empty(),
            in_artifact: Set::empty(),
            in_container: Set::empty(),
            stack: Seq::empty(),
        }
    } else {
        walk_step(walk_all(es.drop_last()), es.last())
    }
}

/// Which of a laid-out element's ancestors matter to the conversion.
pub struct Ancestry {
    /// Paragraphs that are part of an enclosing paragraph's own content,
    /// mapped to that paragraph.
    covered_by_par: FxHashMap<u128, u128>,
    /// Elements inside an artifact (page furniture), and paragraphs all of
    /// whose glyphs are drawn inside one.
    in_artifact: FxHashSet<u128>,
    /// Elements inside a container emitted as a node of its own.
    in_container: FxHashSet<u128>,
}

impl Ancestry {
    /// The paragraphs covered by another, to the one covering each.
    pub closed spec fn covered(&self) -> Map<u128, u128> {
        self.covered_by_par@
    }

    /// The elements that are page furniture.
    pub closed spec fn artifacts(&self) -> Set<u128> {
        self.in_artifact@
    }

    /// The elements inside an emitted container.
    pub closed spec fn containers(&self) -> Set<u128> {
        self.in_container@
    }

    /// Reconstructs ancestry from the events of a depth-first walk over a
    /// laid-out document's frames.
    pub fn from_events(events: &Vec<FrameEvent>) -> (r: Self)
        requires
            events@.len() < u32::MAX,
        ensures
            r.covered() == walk_all(events@).covered_by_par,
            r.artifacts() == walk_all(events@).in_artifact,
            r.containers() == walk_all(events@).in_container,
    {
        let mut a = Ancestry {
            covered_by_par: FxHashMap::default(),
            in_artifact: FxHashSet::default(),
            in_container: FxHashSet::default(),
        };
        let mut stack: Vec<Open> = Vec::new();
        let mut k: usize = 0;
        while k < events.len()
            invariant
                0 <= k <= events@.len(),
                events@.len() < u32::MAX,
                a.covered_by_par@ == walk_all(events@.take(k as int)).covered_by_par,
                a.in_artifact@ == walk_all(events@.take(k as int)).in_artifact,
                a.in_container@ == walk_all(events@.take(k as int)).in_container,
                stack@ == walk_all(events@.take(k as int)).stack,
                forall|i: int|
                    0 <= i < stack@.len() ==> (#[trigger] stack@[i]).glyphs_in_artifact
                        + stack@[i].glyphs_outside_artifact <= k,
            decreases events@.len() - k,
        {
            assert(events@.take(k + 1).drop_last() == events@.take(k as int));
            assert(events@.take(k + 1).last() == events@[k as int]);
            let ghost s = walk_all(events@.take(k as int));
            match events[k] {
                FrameEvent::Start { location, kind, range } => {
                    let is_par = kind == ElemKind::Paragraph;
                    if is_par {
                        match covering_par(&stack, range) {
                            Some(parent) => fx_insert(&mut a.covered_by_par, location, parent),
                            None => {},
                        }
                    }
                    let mut any_art = false;
                    let mut any_cont = false;
                    let mut i: usize = 0;
                    while i < stack.len()
                        invariant
                            0 <= i <= stack@.len(),
                            any_art <==> exists|j: int| 0 <= j < i && (#[trigger] stack@[j]).is_artifact,
                            any_cont <==> exists|j: int| 0 <= j < i && (#[trigger] stack@[j]).is_container,
                        decreases stack@.len() - i,
                    {
                        if stack[i].is_artifact {
                            any_art = true;
                        }
                        if stack[i].is_container {
                            any_cont = true;
                        }
                        i += 1;
                    }
                    if any_art {
                        fx_set_insert(&mut a.in_artifact, location);
                    }
                    if any_cont {
                        fx_set_insert(&mut a.in_container, location);
                    }
                    stack.push(
                        Open {
                            location,
                            par_range: if is_par {
                                Some(range)
                            } else {
                                None
                            },
                            is_artifact: kind == ElemKind::Artifact,
                            is_container: is_emitted_container(kind),
                            glyphs_in_artifact: 0,
                            glyphs_outside_artifact: 0,
                        },
                    );
                },
                FrameEvent::End { location } => {
                    let found = find_open(&stack, location);
                    match found {
                        Some(index) => {
                            let ghost before = a.in_artifact@;
                            let mut j: usize = index;
                            while j < stack.len()
                                invariant
                                    index <= j <= stack@.len(),
                                    stack@ == s.stack,
                                    before == s.in_artifact,
                                    a.covered_by_par@ == s.covered_by_par,
                                    a.in_container@ == s.in_container,
                                    a.in_artifact@ == before.union(artifact_pars(stack@.subrange(index as int, j as int))),
                                decreases stack@.len() - j,
                            {
                                let o = stack[j];
                                if o.par_range.is_some() && o.glyphs_outside_artifact == 0
                                    && o.glyphs_in_artifact > 0 {
                                    fx_set_insert(&mut a.in_artifact, o.location);
                                }
                                proof {
                                    let c0 = stack@.subrange(index as int, j as int);
                                    let c1 = stack@.subrange(index as int, j + 1);
                                    assert forall|l: u128| artifact_pars(c1).contains(l) <==> (
                                    artifact_pars(c0).contains(l) || (l == o.location && artifact_par(o))) by {
                                        if artifact_pars(c1).contains(l) {
                                            let w = choose|w: int|
                                                0 <= w < c1.len() && #[trigger] c1[w].location == l
                                                    && artifact_par(c1[w]);
                                            if w < c0.len() {
                                                assert(c0[w] == c1[w]);
                                            }
                                        }
                                        if artifact_pars(c0).contains(l) {
                                            let w = choose|w: int|
                                                0 <= w < c0.len() && #[trigger] c0[w].location == l
                                                    && artifact_par(c0[w]);
                                            assert(c1[w] == c0[w]);
                                        }
                                        if l == o.location && artifact_par(o) {
                                            assert(c1[c0.len() as int] == o);
                                        }
                                    }
                                    assert(a.in_artifact@ =~= before.union(artifact_pars(c1)));
                                }
                                j += 1;
                            }
                            assert(stack@.subrange(index as int, stack@.len() as int) == stack@.skip(index as int));
                            stack.truncate(index);
                            proof {
                                lemma_last_open_bounds(s.stack, location);
                                assert(last_open_at(s.stack, location) == Some(index as int));
                                let t = walk_all(events@.take(k + 1));
                                assert(t == walk_step(s, events@[k as int]));
                                assert(a.in_artifact@ =~= t.in_artifact);
                                assert(stack@ =~= t.stack);
                            }
                        },
                        None => {},
                    }
                },
                FrameEvent::Text => {
                    let mut any_art = false;
                    let mut i: usize = 0;
                    while i < stack.len()
                        invariant
                            0 <= i <= stack@.len(),
                            any_art <==> exists|j: int| 0 <= j < i && (#[trigger] stack@[j]).is_artifact,
                        decreases stack@.len() - i,
                    {
                        if stack[i].is_artifact {
                            any_art = true;
                        }
                        i += 1;
                    }
                    let ghost st = stack@;
                    let mut i: usize = 0;
                    while i < stack.len()
                        invariant
                            0 <= i <= stack@.len(),
                            stack@.len() == st.len(),
                            any_art == any_artifact(st),
                            k < u32::MAX,
                            forall|j: int| 0 <= j < st.len() ==> (#[trigger] st[j]).glyphs_in_artifact
                                + st[j].glyphs_outside_artifact <= k,
                            forall|j: int| 0 <= j < i ==> #[trigger] stack@[j] == count_glyph(st[j], any_art),
                            forall|j: int| i <= j < st.len() ==> #[trigger] stack@[j] == st[j],
                        decreases stack@.len() - i,
                    {
                        let mut o = stack[i];
                        if o.par_range.is_some() {
                            if any_art {
                                o.glyphs_in_artifact = o.glyphs_in_artifact + 1;
                            } else {
                                o.glyphs_outside_artifact = o.glyphs_outside_artifact + 1;
                            }
                        }
                        stack.set(i, o);
                        i += 1;
                    }
                    assert(stack@ =~= st.map_values(|o: Open| count_glyph(o, any_artifact(st))));
                },
            }
            proof {
                let t = walk_all(events@.take(k + 1));
                assert(t == walk_step(s, events@[k as int]));
                match events@[k as int] {
                    FrameEvent::Start { location, kind, range } => {
                        assert(a.in_artifact@ =~= t.in_artifact);
                        assert(stack@ =~= t.stack);
                    },
                    FrameEvent::End { location } => {},
                    FrameEvent::Text => {
                        assert(a.in_artifact@ =~= t.in_artifact);
                        assert(stack@ =~= t.stack);
                    },
                }
            }
            k += 1;
        }
        assert(events@.take(k as int) == events@);
        a
    }

    /// The paragraph this one is part of, if any.
    pub fn covering_par(&self, location: u128) -> (r: Option<u128>)
        ensures
            r == (if self.covered().contains_key(location) {
                Some(self.covered()[location])
            } else {
                None::<u128>
            }),
    {
        fx_get(&self.covered_by_par, &location)
    }

    /// Whether `location` is page furniture marked as an artifact.
    pub fn is_artifact(&self, location: u128) -> (r: bool)
        ensures
            r == self.artifacts().contains(location),
    {
        fx_set_contains(&self.in_artifact, &location)
    }

    /// Whether `location` sits inside a container emitted as its own node.
    pub fn is_in_emitted_container(&self, location: u128) -> (r: bool)
        ensures
            r == self.containers().contains(location),
    {
        fx_set_contains(&self.in_container, &location)
    }
}

} // verus!
