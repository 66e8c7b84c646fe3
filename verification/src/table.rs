//! Tables and lists as plain data: cells read off a resolved grid, header
//! rows, list and enumeration items, and the small fallbacks used when a
//! figure carries no caption or number of its own.

use vstd::prelude::*;

use crate::fmt::{decimal, push_numeral, push_str, string_from_chars, str_eq};
use crate::meta::{meta_view, MetaModel};
use crate::model::{ListItem, MetaValue, TableCell};

verus! {

/// One entry of a resolved grid: a cell, with its spans and text.
pub struct GridCell {
    pub rowspan: usize,
    pub colspan: usize,
    pub text: String,
}

/// A resolved grid: entries row by row (`None` where a merged cell's span
/// covers the position), in rows of `cols` columns.
pub struct CellGrid {
    pub cols: usize,
    pub entries: Vec<Option<GridCell>>,
}

/// Whether `c` is the cell read off entry `idx` of a grid with `cols`
/// columns, holding `g`.
pub open spec fn cell_from(c: TableCell, idx: int, cols: usize, g: GridCell) -> bool {
    &&& c.row == (idx / cols as int) as i32
    &&& c.col == (idx % cols as int) as i32
    &&& c.rowspan == g.rowspan as i32
    &&& c.colspan == g.colspan as i32
    &&& !c.is_header
    &&& c.text == g.text
}

/// The positions of the cells among `entries`, in order.
pub open spec fn cell_positions(entries: Seq<Option<GridCell>>) -> Seq<int>
    decreases entries.len(),
{
    if entries.len() == 0 {
        Seq::empty()
    } else {
        let prev = cell_positions(entries.drop_last());
        if entries.last() is Some {
            prev.push(entries.len() - 1)
        } else {
            prev
        }
    }
}

/// The cells of a resolved grid, in order, each at its row and column; no
/// cells for no grid or a grid without columns.
pub fn cells_from_cell_grid(grid: Option<&CellGrid>) -> (r: Vec<TableCell>)
    ensures
        match grid {
            None => r@.len() == 0,
            Some(g) => if g.cols == 0 {
                r@.len() == 0
            } else {
                let ps = cell_positions(g.entries@);
                &&& r@.len() == ps.len()
                &&& forall|k: int|
                    0 <= k < ps.len() ==> cell_from(#[trigger] r@[k], ps[k], g.cols, g.entries@[ps[k]].unwrap())
            },
        },
{
    let g = match grid {
        Some(g) => g,
        None => return Vec::new(),
    };
    let cols = g.cols;
    if cols == 0 {
        return Vec::new();
    }
    let mut cells: Vec<TableCell> = Vec::new();
    let mut idx: usize = 0;
    while idx < g.entries.len()
        invariant
            0 <= idx <= g.entries@.len(),
            cols == g.cols,
            cols > 0,
            cells@.len() == cell_positions(g.entries@.take(idx as int)).len(),
            forall|k: int|
                0 <= k < cells@.len() ==> cell_from(
                    #[trigger] cells@[k],
                    cell_positions(g.entries@.take(idx as int))[k],
                    cols,
                    g.entries@[cell_positions(g.entries@.take(idx as int))[k]].unwrap(),
                ),
            forall|k: int|
                0 <= k < cell_positions(g.entries@.take(idx as int)).len() ==> 0 <= #[trigger] cell_positions(
                    g.entries@.take(idx as int),
                )[k] < idx && g.entries@[cell_positions(g.entries@.take(idx as int))[k]] is Some,
        decreases g.entries@.len() - idx,
    {
        let ghost before = cell_positions(g.entries@.take(idx as int));
        assert(g.entries@.take(idx + 1).drop_last() == g.entries@.take(idx as int));
        assert(g.entries@.take(idx + 1).last() == g.entries@[idx as int]);
        match &g.entries[idx] {
            Some(cell) => {
                let row = (idx / cols) as i32;
                let col = (idx % cols) as i32;
                cells.push(
                    TableCell {
                        row,
                        col,
                        rowspan: cell.rowspan as i32,
                        colspan: cell.colspan as i32,
                        is_header: false,
                        text: cell.text.clone(),
                    },
                );
                proof {
                    let after = cell_positions(g.entries@.take(idx + 1));
                    assert(after == before.push(idx as int));
                    assert forall|k: int| 0 <= k < cells@.len() implies cell_from(
                        #[trigger] cells@[k],
                        after[k],
                        cols,
                        g.entries@[after[k]].unwrap(),
                    ) by {
                        if k < before.len() {
                            assert(after[k] == before[k]);
                        }
                    }
                }
            },
            None => {},
        }
        idx += 1;
    }
    assert(g.entries@.take(idx as int) == g.entries@);
    cells
}

/// The cells of a table, those in the first `header_rows` rows marked as
/// header cells.
pub fn cells_from_grid(grid: Option<&CellGrid>, header_rows: i32) -> (r: Vec<TableCell>)
    ensures
        match grid {
            None => r@.len() == 0,
            Some(g) => if g.cols == 0 {
                r@.len() == 0
            } else {
                let ps = cell_positions(g.entries@);
                &&& r@.len() == ps.len()
                &&& forall|k: int|
                    0 <= k < ps.len() ==> {
                        let c = #[trigger] r@[k];
                        &&& cell_from(TableCell { is_header: false, ..c }, ps[k], g.cols, g.entries@[ps[k]].unwrap())
                        &&& c.is_header == (c.row < header_rows)
                    }
            },
        },
{
    let cells = cells_from_cell_grid(grid);
    let mut out: Vec<TableCell> = Vec::new();
    let mut i: usize = 0;
    while i < cells.len()
        invariant
            0 <= i <= cells@.len(),
            out@.len() == i,
            forall|k: int|
                0 <= k < i ==> (#[trigger] out@[k]) == (TableCell {
                    is_header: cells@[k].row < header_rows,
                    ..cells@[k]
                }),
        decreases cells@.len() - i,
    {
        let c = &cells[i];
        out.push(
            TableCell {
                row: c.row,
                col: c.col,
                rowspan: c.rowspan,
                colspan: c.colspan,
                is_header: c.row < header_rows,
                text: c.text.clone(),
            },
        );
        i += 1;
    }
    out
}

/// Whether a table child is a header, and how many items it holds.
pub enum TableChildKind {
    /// A header, with whether each of its items is a cell.
    Header(Vec<bool>),
    Other,
}

/// The rows a header spans: one, whatever it holds.
pub fn count_header_items(items: &Vec<bool>) -> (r: usize)
    ensures
        r == 1,
{
    let mut max_row: usize = 0;
    let mut i: usize = 0;
    while i < items.len()
        invariant
            0 <= i <= items@.len(),
            max_row <= 1,
        decreases items@.len() - i,
    {
        if items[i] {
            max_row = if max_row > 1 {
                max_row
            } else {
                1
            };
        }
        i += 1;
    }
    if max_row > 1 {
        max_row
    } else {
        1
    }
}

/// How many of `children` are headers.
pub open spec fn headers_in(children: Seq<TableChildKind>) -> nat
    decreases children.len(),
{
    if children.len() == 0 {
        0
    } else {
        headers_in(children.drop_last()) + if children.last() is Header {
            1nat
        } else {
            0nat
        }
    }
}

/// The header rows of a table with these children: one per header.
pub fn count_header_rows(children: &Vec<TableChildKind>) -> (r: i32)
    ensures
        r == headers_in(children@) as i32,
{
    let mut rows: usize = 0;
    let mut any_header = false;
    let mut i: usize = 0;
    while i < children.len()
        invariant
            0 <= i <= children@.len(),
            rows == headers_in(children@.take(i as int)),
            rows <= i,
            any_header == (rows > 0),
        decreases children@.len() - i,
    {
        assert(children@.take(i + 1).drop_last() == children@.take(i as int));
        assert(children@.take(i + 1).last() == children@[i as int]);
        match &children[i] {
            TableChildKind::Header(items) => {
                rows = rows + count_header_items(items);
                any_header = true;
            },
            TableChildKind::Other => {},
        }
        i += 1;
    }
    assert(children@.take(i as int) == children@);
    if rows == 0 && any_header {
        rows = 1;
    }
    rows as i32
}

/// The `content_kind` hint of a node's metadata: the text stored under
/// that key, when it is text.
pub open spec fn content_kind_in(entries: Seq<(String, MetaValue)>) -> Option<Seq<char>>
    decreases entries.len(),
{
    if entries.len() == 0 {
        None
    } else if entries[0].0@ == seq!['c', 'o', 'n', 't', 'e', 'n', 't', '_', 'k', 'i', 'n', 'd'] {
        match meta_view(entries[0].1) {
            MetaModel::Str(s) => Some(s),
            _ => None,
        }
    } else {
        content_kind_in(entries.drop_first())
    }
}

/// The `content_kind` hint a table's metadata carries.
pub fn content_kind_from_metadata(metadata: &Vec<(String, MetaValue)>) -> (r: Option<String>)
    ensures
        match r {
            Some(s) => content_kind_in(metadata@) == Some(s@),
            None => content_kind_in(metadata@) is None,
        },
{
    let mut key: Vec<char> = Vec::new();
    push_str(&mut key, "content_kind");
    proof {
        reveal_strlit("content_kind");
    }
    let key = string_from_chars(&key);
    assert(key@ =~= seq!['c', 'o', 'n', 't', 'e', 'n', 't', '_', 'k', 'i', 'n', 'd']);
    let mut i: usize = 0;
    assert(metadata@.skip(0) == metadata@);
    while i < metadata.len()
        invariant
            0 <= i <= metadata@.len(),
            key@ == seq!['c', 'o', 'n', 't', 'e', 'n', 't', '_', 'k', 'i', 'n', 'd'],
            content_kind_in(metadata@) == content_kind_in(metadata@.skip(i as int)),
        decreases metadata@.len() - i,
    {
        assert(metadata@.skip(i as int)[0] == metadata@[i as int]);
        assert(metadata@.skip(i as int).drop_first() == metadata@.skip(i + 1));
        if str_eq(metadata[i].0.as_str(), key.as_str()) {
            return match &metadata[i].1 {
                MetaValue::Str(s) => Some(s.clone()),
                _ => None,
            };
        }
        i += 1;
    }
    None
}

/// `Tableau ` and the number of a figure with `before` figures before it.
pub open spec fn tableau(before: nat) -> Seq<char> {
    seq!['T', 'a', 'b', 'l', 'e', 'a', 'u', ' '] + decimal(before + 1)
}

/// The number a table figure without one of its own is given: `Tableau`
/// and its position among the figures; nothing for a figure without a
/// location, whose position is unknown (`None`).
pub fn figure_number_fallback(figures_before: Option<usize>) -> (r: Option<String>)
    requires
        figures_before matches Some(n) ==> n < usize::MAX,
    ensures
        match figures_before {
            None => r is None,
            Some(n) => r matches Some(s) && s@ == tableau(n as nat),
        },
{
    let n = match figures_before {
        Some(n) => n,
        None => return None,
    };
    let mut out: Vec<char> = Vec::new();
    push_str(&mut out, "Tableau ");
    proof {
        reveal_strlit("Tableau ");
    }
    let ghost head = out@;
    push_numeral(&mut out, (n + 1) as u64, 10);
    assert(out@ =~= tableau(n as nat));
    Some(string_from_chars(&out))
}

// ---------------------------------------------------------------------------
// Lists

/// An item of a bullet or numbered list, as the document writes it: its
/// text, the number it sets, and the items of a list nested in it.
pub struct ItemSource {
    pub text: String,
    pub number: Option<usize>,
    pub children: Vec<ItemSource>,
}

/// Whether `out` is item `src` of a bullet list: its text, no number, and
/// its nested items likewise.
pub open spec fn bullet_item(src: ItemSource, out: ListItem) -> bool
    decreases src,
{
    &&& out.text == src.text
    &&& out.number is None
    &&& out.children@.len() == src.children@.len()
    &&& forall|k: int|
        0 <= k < src.children@.len() ==> bullet_item(#[trigger] src.children@[k], out.children@[k])
}

/// Whether `out` is item `src`, at index `index`, of a numbered list: its
/// text, the number it sets or else its index counted from one, and its
/// nested items likewise, counted afresh.
pub open spec fn numbered_item(src: ItemSource, out: ListItem, index: int) -> bool
    decreases src,
{
    &&& out.text == src.text
    &&& out.number == Some(
        match src.number {
            Some(n) => n as i32,
            None => (index + 1) as i32,
        },
    )
    &&& out.children@.len() == src.children@.len()
    &&& forall|k: int|
        0 <= k < src.children@.len() ==> numbered_item(#[trigger] src.children@[k], out.children@[k], k)
}

/// Item `src` of a bullet list.
pub fn list_item(src: &ItemSource) -> (r: ListItem)
    ensures
        bullet_item(*src, r),
    decreases *src,
{
    let mut children: Vec<ListItem> = Vec::new();
    let mut i: usize = 0;
    while i < src.children.len()
        invariant
            0 <= i <= src.children@.len(),
            children@.len() == i,
            forall|k: int| 0 <= k < i ==> bullet_item(#[trigger] src.children@[k], children@[k]),
        decreases src.children@.len() - i,
    {
        proof {
            vstd::std_specs::vec::axiom_vec_index_decreases(src.children, i as int);
            assert(decreases_to!(*src => src.children));
        }
        let c = list_item(&src.children[i]);
        children.push(c);
        i += 1;
    }
    ListItem { text: src.text.clone(), number: None, children }
}

/// Item `src`, at index `index`, of a numbered list.
pub fn enum_item(src: &ItemSource, index: usize) -> (r: ListItem)
    ensures
        numbered_item(*src, r, index as int),
    decreases *src,
{
    let number: i32 = match src.number {
        Some(n) => n as i32,
        None => (index as i128 + 1) as i32,
    };
    let mut children: Vec<ListItem> = Vec::new();
    let mut i: usize = 0;
    while i < src.children.len()
        invariant
            0 <= i <= src.children@.len(),
            children@.len() == i,
            forall|k: int| 0 <= k < i ==> numbered_item(#[trigger] src.children@[k], children@[k], k),
        decreases src.children@.len() - i,
    {
        proof {
            vstd::std_specs::vec::axiom_vec_index_decreases(src.children, i as int);
            assert(decreases_to!(*src => src.children));
        }
        let c = enum_item(&src.children[i], i);
        children.push(c);
        i += 1;
    }
    ListItem { text: src.text.clone(), number: Some(number), children }
}

} // verus!
