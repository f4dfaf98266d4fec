//! Table body layout: cells are placed on a grid of rows and columns, honouring the columns
//! and rows each cell spans, and each row and placed cell becomes an area.
//!
//! A table body is given by the values its formatting objects hold: its children in order,
//! each a table row (its children in order, each a table cell or another object) or another
//! object. A cell's spans are the numbers of its `number-columns-spanned` and
//! `number-rows-spanned` properties, `None` when absent; a span below 1 counts as 1.

use vstd::prelude::*;
use crate::area::{Area, AreaId, AreaTree, AreaType, TraitSet};
use crate::engine::LayoutEngine;
use crate::error::FopError;
use crate::geometry::{Color, Point, Rect, Size};
use crate::length::Length;

verus! {

/// A table cell: its spans and its background colour.
#[derive(Debug, Clone, Copy)]
pub struct TableCellSpec {
    pub columns_spanned: Option<usize>,
    pub rows_spanned: Option<usize>,
    pub background_color: Option<Color>,
}

/// The children of a table row: each a cell, or `None` for another object.
pub type RowChildren = Vec<Option<TableCellSpec>>;

/// Occupancy of the grid: for each row and column, the cell (row index, child index) that
/// covers it, if any.
pub type GridView = Seq<Seq<Option<(usize, usize)>>>;

/// A span as used: at least 1.
pub open spec fn span_value(v: Option<usize>) -> int {
    match v {
        Some(n) => if n >= 1 { n as int } else { 1 },
        None => 1,
    }
}

/// The smaller of two integers.
pub open spec fn min_int(a: int, b: int) -> int {
    if a <= b { a } else { b }
}

/// The empty grid of `rows` rows and `cols` columns.
pub open spec fn empty_grid(rows: int, cols: int) -> GridView {
    Seq::new(rows as nat, |i: int| Seq::new(cols as nat, |j: int| None::<(usize, usize)>))
}

/// `g` with the rectangle of rows `r0..r1` and columns `c0..c1` covered by cell `id`.
pub open spec fn mark(g: GridView, r0: int, r1: int, c0: int, c1: int, id: (usize, usize)) -> GridView {
    Seq::new(g.len(), |i: int| Seq::new(g[i].len(), |j: int| if r0 <= i < r1 && c0 <= j < c1 { Some(id) } else { g[i][j] }))
}

/// The first free column of row `r` at or after `c` (`cols` when none is).
pub open spec fn next_free(g: GridView, r: int, c: int, cols: int) -> int
    decreases cols - c,
{
    if c >= cols || g[r][c] is None { c } else { next_free(g, r, c + 1, cols) }
}

/// Placing the first `k` children of row `r` on the grid: the grid, the column reached,
/// and whether the row ran out of columns. Each cell goes to the first free column from
/// the one reached and covers its spans, cut at the grid's edges.
pub open spec fn row_fill(g: GridView, r: int, cells: Seq<Option<TableCellSpec>>, k: int, rows: int, cols: int)
    -> (GridView, int, bool)
    decreases k,
{
    if k <= 0 {
        (g, 0, false)
    } else {
        let (g1, c1, stop) = row_fill(g, r, cells, k - 1, rows, cols);
        if stop {
            (g1, c1, true)
        } else {
            let c2 = next_free(g1, r, c1, cols);
            if c2 >= cols {
                (g1, c2, true)
            } else {
                match cells[k - 1] {
                    Some(t) => (
                        mark(g1, r, min_int(r + span_value(t.rows_spanned), rows), c2,
                            min_int(c2 + span_value(t.columns_spanned), cols), (r as usize, (k - 1) as usize)),
                        min_int(c2 + span_value(t.columns_spanned), cols),
                        false,
                    ),
                    None => (g1, c2, false),
                }
            }
        }
    }
}

/// The children of a table body by their views.
pub open spec fn body_view(rows: Seq<Option<RowChildren>>) -> Seq<Option<Seq<Option<TableCellSpec>>>> {
    rows.map_values(|r: Option<RowChildren>| match r { Some(c) => Some(c@), None => None })
}

/// The grid after placing the cells of the first `i` children of the body.
pub open spec fn grid_after(rows: Seq<Option<Seq<Option<TableCellSpec>>>>, i: int, cols: int) -> GridView
    decreases i,
{
    if i <= 0 {
        empty_grid(rows.len() as int, cols)
    } else {
        let g = grid_after(rows, i - 1, cols);
        match rows[i - 1] {
            Some(cells) => row_fill(g, i - 1, cells, cells.len() as int, rows.len() as int, cols).0,
            None => g,
        }
    }
}

/// The column where cell `id` starts in row `r`, searching from column `c`: the first
/// column it covers that it does not also cover in the row above or the column before.
pub open spec fn origin_from(g: GridView, r: int, id: (usize, usize), c: int, cols: int) -> Option<int>
    decreases cols - c,
{
    if c >= cols || c < 0 {
        None
    } else if g[r][c] == Some(id) && (r == 0 || g[r - 1][c] != Some(id)) && (c == 0 || g[r][c - 1] != Some(id)) {
        Some(c)
    } else {
        origin_from(g, r, id, c + 1, cols)
    }
}

/// Whether `g` has `rows` rows of `cols` columns.
pub open spec fn grid_shape(g: GridView, rows: int, cols: int) -> bool {
    &&& g.len() == rows
    &&& forall|i: int| 0 <= i < rows ==> #[trigger] g[i].len() == cols
}

/// The exec grid by its view.
pub open spec fn grid_of(g: Seq<Vec<Option<(usize, usize)>>>) -> GridView {
    g.map_values(|row: Vec<Option<(usize, usize)>>| row@)
}

/// Marking keeps the shape of the grid.
proof fn lemma_mark_shape(g: GridView, r0: int, r1: int, c0: int, c1: int, id: (usize, usize), rows: int, cols: int)
    requires
        grid_shape(g, rows, cols),
    ensures
        grid_shape(mark(g, r0, r1, c0, c1, id), rows, cols),
{
}

/// Placing a row keeps the shape of the grid, and the column reached stays within it.
proof fn lemma_row_fill_shape(g: GridView, r: int, cells: Seq<Option<TableCellSpec>>, k: int, rows: int, cols: int)
    requires
        grid_shape(g, rows, cols),
        0 <= r < rows,
        0 <= cols,
    ensures
        grid_shape(row_fill(g, r, cells, k, rows, cols).0, rows, cols),
        0 <= row_fill(g, r, cells, k, rows, cols).1 <= cols,
    decreases k,
{
    if k > 0 {
        lemma_row_fill_shape(g, r, cells, k - 1, rows, cols);
        let (g1, c1, stop) = row_fill(g, r, cells, k - 1, rows, cols);
        if !stop {
            lemma_next_free(g1, r, c1, cols);
        }
    }
}

/// The first free column lies between `c` and the last column.
proof fn lemma_next_free(g: GridView, r: int, c: int, cols: int)
    requires
        0 <= c <= cols,
    ensures
        c <= next_free(g, r, c, cols) <= cols,
    decreases cols - c,
{
    if c < cols && g[r][c] is Some {
        lemma_next_free(g, r, c + 1, cols);
    }
}

/// The grid keeps its shape through the rows.
proof fn lemma_grid_after_shape(rows: Seq<Option<Seq<Option<TableCellSpec>>>>, i: int, cols: int)
    requires
        0 <= i <= rows.len(),
        0 <= cols,
    ensures
        grid_shape(grid_after(rows, i, cols), rows.len() as int, cols),
    decreases i,
{
    if i > 0 {
        lemma_grid_after_shape(rows, i - 1, cols);
        match rows[i - 1] {
            Some(cells) => {
                lemma_row_fill_shape(grid_after(rows, i - 1, cols), i - 1, cells, cells.len() as int, rows.len() as int, cols);
            },
            None => {},
        }
    }
}

/// Covers rows `r0..r1` and columns `c0..c1` of the grid with cell `id`.
fn mark_rect(grid: &mut Vec<Vec<Option<(usize, usize)>>>, r0: usize, r1: usize, c0: usize, c1: usize, id: (usize, usize))
    requires
        r0 <= r1 <= old(grid)@.len(),
    ensures
        final(grid)@.len() == old(grid)@.len(),
        grid_of(final(grid)@) == mark(grid_of(old(grid)@), r0 as int, r1 as int, c0 as int, c1 as int, id),
{
    let ghost g0 = grid_of(grid@);
    let mut i = r0;
    while i < r1
        invariant
            r0 <= i <= r1 <= grid@.len(),
            g0.len() == grid@.len(),
            forall|a: int| 0 <= a < grid@.len() ==> #[trigger] grid_of(grid@)[a] == if r0 <= a < i {
                mark(g0, r0 as int, r1 as int, c0 as int, c1 as int, id)[a]
            } else {
                g0[a]
            },
        decreases r1 - i,
    {
        let n = grid[i].len();
        let mut row: Vec<Option<(usize, usize)>> = Vec::new();
        let mut j: usize = 0;
        proof { assert(grid_of(grid@)[i as int] == grid@[i as int]@); }
        while j < n
            invariant
                j <= n,
                n == grid@[i as int]@.len(),
                r0 <= i < r1 <= grid@.len(),
                grid_of(grid@)[i as int] == g0[i as int],
                row@.len() == j,
                forall|b: int| 0 <= b < j ==> #[trigger] row@[b] == if c0 <= b < c1 { Some(id) } else { g0[i as int][b] },
            decreases n - j,
        {
            if c0 <= j && j < c1 {
                row.push(Some(id));
            } else {
                let v = grid[i][j];
                proof { assert(grid@[i as int]@[j as int] == g0[i as int][j as int]); }
                row.push(v);
            }
            j = j + 1;
        }
        let ghost before = grid@;
        grid.set(i, row);
        proof {
            assert forall|a: int| 0 <= a < grid@.len() implies #[trigger] grid_of(grid@)[a] == if r0 <= a < i + 1 {
                mark(g0, r0 as int, r1 as int, c0 as int, c1 as int, id)[a]
            } else {
                g0[a]
            } by {
                if a == i {
                    assert(grid_of(grid@)[a] =~= mark(g0, r0 as int, r1 as int, c0 as int, c1 as int, id)[a]);
                } else {
                    assert(grid@[a] == before[a]);
                    assert(grid_of(grid@)[a] == grid_of(before)[a]);
                }
            }
        }
        i = i + 1;
    }
    proof {
        let m = mark(g0, r0 as int, r1 as int, c0 as int, c1 as int, id);
        assert forall|a: int| 0 <= a < grid@.len() implies #[trigger] grid_of(grid@)[a] == m[a] by {
            if !(r0 <= a < r1) {
                assert(m[a] =~= g0[a]);
            }
        }
        assert(grid_of(grid@) =~= m);
    }
}

/// The first free column of row `r` at or after `c`.
fn next_free_exec(grid: &Vec<Vec<Option<(usize, usize)>>>, r: usize, c: usize, cols: usize) -> (res: usize)
    requires
        r < grid@.len(),
        grid_shape(grid_of(grid@), grid@.len() as int, cols as int),
        c <= cols,
    ensures
        res == next_free(grid_of(grid@), r as int, c as int, cols as int),
{
    let mut k = c;
    proof { assert(grid_of(grid@)[r as int] == grid@[r as int]@); }
    while k < cols && grid[r][k].is_some()
        invariant
            c <= k <= cols,
            r < grid@.len(),
            grid_shape(grid_of(grid@), grid@.len() as int, cols as int),
            grid_of(grid@)[r as int] == grid@[r as int]@,
            next_free(grid_of(grid@), r as int, c as int, cols as int)
                == next_free(grid_of(grid@), r as int, k as int, cols as int),
        decreases cols - k,
    {
        k = k + 1;
    }
    k
}

/// The span of a cell as used.
fn span_of(v: Option<usize>) -> (r: usize)
    ensures
        r == span_value(v),
{
    match v {
        Some(n) => if n >= 1 { n } else { 1 },
        None => 1,
    }
}

/// Places the cells of the body's rows on a grid of `cols` columns, row by row; returns the
/// grid.
pub fn fill_grid(rows: &Vec<Option<RowChildren>>, cols: usize) -> (r: Vec<Vec<Option<(usize, usize)>>>)
    ensures
        grid_of(r@) == grid_after(body_view(rows@), rows@.len() as int, cols as int),
{
    let ghost bv = body_view(rows@);
    let nrows = rows.len();
    let mut grid: Vec<Vec<Option<(usize, usize)>>> = Vec::new();
    let mut i: usize = 0;
    while i < nrows
        invariant
            i <= nrows,
            nrows == rows@.len(),
            grid@.len() == i,
            forall|a: int| 0 <= a < i ==> (#[trigger] grid@[a])@ == Seq::new(cols as nat, |j: int| None::<(usize, usize)>),
        decreases nrows - i,
    {
        let mut row: Vec<Option<(usize, usize)>> = Vec::new();
        let mut j: usize = 0;
        while j < cols
            invariant
                j <= cols,
                row@ == Seq::new(j as nat, |b: int| None::<(usize, usize)>),
            decreases cols - j,
        {
            row.push(None);
            j = j + 1;
            proof { assert(row@ =~= Seq::new(j as nat, |b: int| None::<(usize, usize)>)); }
        }
        grid.push(row);
        i = i + 1;
    }
    proof {
        assert(grid_of(grid@) =~= empty_grid(nrows as int, cols as int));
    }
    let mut ri: usize = 0;
    while ri < nrows
        invariant
            ri <= nrows,
            nrows == rows@.len(),
            bv == body_view(rows@),
            grid@.len() == nrows,
            grid_of(grid@) == grid_after(bv, ri as int, cols as int),
        decreases nrows - ri,
    {
        proof {
            lemma_grid_after_shape(bv, ri as int, cols as int);
            assert(bv[ri as int] == match rows@[ri as int] { Some(c) => Some(c@), None => None::<Seq<Option<TableCellSpec>>> });
        }
        match &rows[ri] {
            Some(cells) => {
                let ghost g0 = grid_of(grid@);
                let n = cells.len();
                let mut k: usize = 0;
                let mut col: usize = 0;
                let mut stop = false;
                while k < n
                    invariant
                        k <= n,
                        n == cells@.len(),
                        ri < nrows,
                        nrows == grid@.len(),
                        grid_shape(g0, nrows as int, cols as int),
                        (grid_of(grid@), col as int, stop) == row_fill(g0, ri as int, cells@, k as int, nrows as int, cols as int),
                        col <= cols,
                    decreases n - k,
                {
                    proof {
                        lemma_row_fill_shape(g0, ri as int, cells@, k as int, nrows as int, cols as int);
                    }
                    if !stop {
                        let c2 = next_free_exec(&grid, ri, col, cols);
                        proof { lemma_next_free(grid_of(grid@), ri as int, col as int, cols as int); }
                        if c2 >= cols {
                            stop = true;
                            col = c2;
                        } else {
                            match cells[k] {
                                Some(t) => {
                                    let rs = span_of(t.rows_spanned);
                                    let cs = span_of(t.columns_spanned);
                                    let r1 = if rs >= nrows - ri { nrows } else { ri + rs };
                                    let c1 = if cs >= cols - c2 { cols } else { c2 + cs };
                                    mark_rect(&mut grid, ri, r1, c2, c1, (ri, k));
                                    col = c1;
                                },
                                None => {
                                    col = c2;
                                },
                            }
                        }
                    }
                    k = k + 1;
                }
                proof {
                    assert(grid_after(bv, ri + 1, cols as int) == row_fill(g0, ri as int, cells@, n as int, nrows as int, cols as int).0);
                }
            },
            None => {},
        }
        ri = ri + 1;
    }
    grid
}

/// The height of a table row, 30pt, in millipoints.
pub open spec fn row_height() -> int {
    30000
}

/// The column where cell `id` starts in row `r` of the grid, searching from column 0.
fn origin_exec(grid: &Vec<Vec<Option<(usize, usize)>>>, r: usize, id: (usize, usize), cols: usize) -> (res: Option<usize>)
    requires
        r < grid@.len(),
        grid_shape(grid_of(grid@), grid@.len() as int, cols as int),
    ensures
        match res {
            Some(c) => origin_from(grid_of(grid@), r as int, id, 0, cols as int) == Some(c as int),
            None => origin_from(grid_of(grid@), r as int, id, 0, cols as int) is None,
        },
{
    let ghost g = grid_of(grid@);
    let mut c: usize = 0;
    proof {
        assert(g[r as int] == grid@[r as int]@);
        if r > 0 {
            assert(g[r - 1] == grid@[r - 1]@);
        }
    }
    while c < cols
        invariant
            c <= cols,
            r < grid@.len(),
            g == grid_of(grid@),
            grid_shape(g, grid@.len() as int, cols as int),
            g[r as int] == grid@[r as int]@,
            r > 0 ==> g[r - 1] == grid@[r - 1]@,
            origin_from(g, r as int, id, 0, cols as int) == origin_from(g, r as int, id, c as int, cols as int),
        decreases cols - c,
    {
        let here = grid[r][c] == Some(id);
        let above_differs = r == 0 || grid[r - 1][c] != Some(id);
        let left_differs = c == 0 || grid[r][c - 1] != Some(id);
        if here && above_differs && left_differs {
            return Some(c);
        }
        c = c + 1;
    }
    None
}

/// Sum of the widths `ws[a..b]`.
pub open spec fn width_sum(ws: Seq<Length>, a: int, b: int) -> int
    decreases b - a,
{
    if b <= a { 0 } else { width_sum(ws, a, b - 1) + ws[b - 1].mp() }
}

/// Sum of the absolute widths `ws[a..b]`.
pub open spec fn abs_width_sum(ws: Seq<Length>, a: int, b: int) -> int
    decreases b - a,
{
    if b <= a { 0 } else { abs_width_sum(ws, a, b - 1) + (if ws[b - 1].mp() < 0 { -ws[b - 1].mp() } else { ws[b - 1].mp() }) }
}

/// Partial sums are bounded by absolute sums, which grow with the range.
proof fn lemma_width_sums(ws: Seq<Length>, a: int, b: int, n: int)
    requires
        0 <= a <= b <= n <= ws.len(),
    ensures
        -abs_width_sum(ws, 0, n) <= width_sum(ws, a, b) <= abs_width_sum(ws, 0, n),
    decreases n - b + (b - a),
{
    if b < n {
        lemma_width_sums(ws, a, b, n - 1);
    } else if b > a {
        lemma_width_sums(ws, a, b - 1, n - 1);
    } else {
        lemma_abs_nonneg(ws, 0, n);
    }
}

/// Absolute sums are non-negative.
proof fn lemma_abs_nonneg(ws: Seq<Length>, a: int, b: int)
    ensures
        abs_width_sum(ws, a, b) >= 0,
    decreases b - a,
{
    if b > a {
        lemma_abs_nonneg(ws, a, b - 1);
    }
}

/// Sum of the widths `ws[a..b]`.
fn sum_widths(ws: &[Length], a: usize, b: usize) -> (r: i64)
    requires
        a <= b <= ws@.len(),
        abs_width_sum(ws@, 0, ws@.len() as int) <= i32::MAX,
    ensures
        r == width_sum(ws@, a as int, b as int),
        i32::MIN <= r <= i32::MAX,
{
    let mut total: i64 = 0;
    let mut k = a;
    while k < b
        invariant
            a <= k <= b <= ws@.len(),
            abs_width_sum(ws@, 0, ws@.len() as int) <= i32::MAX,
            total == width_sum(ws@, a as int, k as int),
        decreases b - k,
    {
        proof {
            lemma_width_sums(ws@, a as int, k as int, ws@.len() as int);
            lemma_width_sums(ws@, a as int, k + 1, ws@.len() as int);
        }
        total = total + ws[k].millipoints() as i64;
        k = k + 1;
    }
    proof { lemma_width_sums(ws@, a as int, b as int, ws@.len() as int); }
    total
}

/// An area that layout of a table body creates: a row, or a cell with its background.
pub enum PlannedArea {
    Row { x: int, y: int, width: int, height: int },
    Cell { x: int, y: int, width: int, height: int, background: Option<Color> },
}

/// The number of table rows among the first `i` children of the body.
pub open spec fn row_count(rows: Seq<Option<Seq<Option<TableCellSpec>>>>, i: int) -> int
    decreases i,
{
    if i <= 0 { 0 } else { row_count(rows, i - 1) + if rows[i - 1] is Some { 1int } else { 0int } }
}

/// The cell areas of the first `k` children of row `r`: each cell placed on the grid spans
/// the widths of its columns, from the sum of the widths before its first column, and
/// `row_height()` times its rows; a cell left off the grid gets none.
pub open spec fn cell_items(g: GridView, r: int, cells: Seq<Option<TableCellSpec>>, ws: Seq<Length>, k: int, cols: int)
    -> Seq<PlannedArea>
    decreases k,
{
    if k <= 0 {
        Seq::empty()
    } else {
        let prev = cell_items(g, r, cells, ws, k - 1, cols);
        match cells[k - 1] {
            Some(t) => match origin_from(g, r, (r as usize, (k - 1) as usize), 0, cols) {
                Some(c) => prev.push(PlannedArea::Cell {
                    x: width_sum(ws, 0, c),
                    y: 0,
                    width: width_sum(ws, c, min_int(c + span_value(t.columns_spanned), cols)),
                    height: row_height() * span_value(t.rows_spanned),
                    background: t.background_color,
                }),
                None => prev,
            },
            None => prev,
        }
    }
}

/// The areas of the first `i` children of the body, in creation order: for each table row,
/// the row (the full width of the columns, `row_height()` high, stacked from `y0`), then its
/// cells.
pub open spec fn table_items(rows: Seq<Option<Seq<Option<TableCellSpec>>>>, g: GridView, ws: Seq<Length>, y0: int, i: int,
    cols: int) -> Seq<PlannedArea>
    decreases i,
{
    if i <= 0 {
        Seq::empty()
    } else {
        let prev = table_items(rows, g, ws, y0, i - 1, cols);
        match rows[i - 1] {
            Some(cells) => prev.push(PlannedArea::Row {
                x: 0,
                y: y0 + row_height() * row_count(rows, i - 1),
                width: width_sum(ws, 0, cols),
                height: row_height(),
            }) + cell_items(g, i - 1, cells, ws, cells.len() as int, cols),
            None => prev,
        }
    }
}

/// Whether area `a` is the block area planned as `p`.
pub open spec fn area_matches(a: Area, p: PlannedArea) -> bool {
    &&& a.area_type == AreaType::Block
    &&& a.content is None
    &&& a.keep_constraint is None
    &&& a.break_before is None
    &&& a.break_after is None
    &&& a.traits.font_size is None
    &&& a.traits.font_family is None
    &&& a.traits.color is None
    &&& a.traits.border_width is None
    &&& a.traits.border_color is None
    &&& a.traits.border_style is None
    &&& a.traits.other_traits_unset()
    &&& match p {
        PlannedArea::Row { x, y, width, height } => {
            &&& a.geometry.x.mp() == x && a.geometry.y.mp() == y
            &&& a.geometry.width.mp() == width && a.geometry.height.mp() == height
            &&& a.traits.background_color is None
        },
        PlannedArea::Cell { x, y, width, height, background } => {
            &&& a.geometry.x.mp() == x && a.geometry.y.mp() == y
            &&& a.geometry.width.mp() == width && a.geometry.height.mp() == height
            &&& a.traits.background_color == background
        },
    }
}

/// Index of the last row among the first `m` planned areas (-1 when there is none).
pub open spec fn last_row_before(items: Seq<PlannedArea>, m: int) -> int
    decreases m,
{
    if m <= 0 { -1 } else if items[m - 1] is Row { m - 1 } else { last_row_before(items, m - 1) }
}

/// The ids of the row areas among `items`, numbered from `base`.
pub open spec fn row_ids(items: Seq<PlannedArea>, base: int) -> Seq<AreaId>
    decreases items.len(),
{
    if items.len() == 0 {
        Seq::empty()
    } else if items.last() is Row {
        row_ids(items.drop_last(), base).push(AreaId((base + items.len() - 1) as usize))
    } else {
        row_ids(items.drop_last(), base)
    }
}

/// Whether every cell of the body spans rows whose height fits in a length.
pub open spec fn spans_fit(rows: Seq<Option<Seq<Option<TableCellSpec>>>>) -> bool {
    forall|i: int, k: int| 0 <= i < rows.len() && rows[i] is Some && 0 <= k < rows[i]->0.len()
        && (#[trigger] rows[i]->0[k]) is Some ==> row_height() * span_value(rows[i]->0[k]->0.rows_spanned) <= i32::MAX
}

/// What the tree holds after placing `items` under table `table`, numbered from `base`.
pub open spec fn placed(t: AreaTree, o: AreaTree, table: AreaId, items: Seq<PlannedArea>) -> bool {
    let base = o.len() as int;
    &&& t.wf()
    &&& t.len() == base + items.len()
    &&& t.footnote_table() == o.footnote_table()
    &&& forall|i: int| 0 <= i < base && i != table.0 ==> #[trigger] t.area_of(i) == o.area_of(i)
        && t.parent_of(i) == o.parent_of(i) && t.children_of(i) == o.children_of(i)
    &&& t.area_of(table.0 as int) == o.area_of(table.0 as int)
    &&& t.parent_of(table.0 as int) == o.parent_of(table.0 as int)
    &&& t.children_of(table.0 as int) == o.children_of(table.0 as int) + row_ids(items, base)
    &&& forall|m: int| 0 <= m < items.len() ==> area_matches(#[trigger] t.area_of(base + m), items[m])
    &&& forall|m: int| 0 <= m < items.len() ==> #[trigger] t.parent_of(base + m) == if items[m] is Row {
        Some(table)
    } else {
        Some(AreaId((base + last_row_before(items, m)) as usize))
    }
}

/// Whether the body has a row.
fn has_row(rows: &Vec<Option<RowChildren>>) -> (r: bool)
    ensures
        r == (row_count(body_view(rows@), rows@.len() as int) > 0),
{
    let ghost bv = body_view(rows@);
    let n = rows.len();
    let mut i: usize = 0;
    while i < n
        invariant
            i <= n,
            n == rows@.len(),
            bv == body_view(rows@),
            row_count(bv, i as int) == 0,
        decreases n - i,
    {
        if rows[i].is_some() {
            proof {
                assert(bv[i as int] is Some);
                assert(row_count(bv, i as int + 1) == 1);
                lemma_row_count_mono(bv, i as int + 1, n as int);
            }
            return true;
        }
        proof {
            assert(bv[i as int] is None);
        }
        i = i + 1;
    }
    false
}

impl LayoutEngine {
    /// Lays out a table body under table area `table_id`: its cells are placed on a grid of
    /// `column_widths.len()` columns (each in the first free column of its row, covering the
    /// columns and rows it spans, cut at the grid's edges; a cell with no free column left is
    /// left out); each table row becomes a block area 30pt high and as wide as all columns,
    /// stacked from `y_offset`, and each placed cell a block area in its row, at the offset of
    /// its first column, as wide as its columns, 30pt high per row spanned, with its
    /// background colour. Returns `y_offset` plus the height of the rows. (The cells' content
    /// is laid out by the block layout, which is not part of this library.) When `table_id`
    /// names no area, a body with a row fails with "parent area not found" and one without
    /// rows returns `y_offset`; the tree is left unchanged.
    pub fn layout_table_body(&self, rows: &Vec<Option<RowChildren>>, area_tree: &mut AreaTree, table_id: AreaId,
        y_offset: Length, column_widths: &[Length]) -> (r: Result<Length, FopError>)
        requires
            old(area_tree).wf(),
            abs_width_sum(column_widths@, 0, column_widths@.len() as int) <= i32::MAX,
            y_offset.mp() + row_height() * row_count(body_view(rows@), rows@.len() as int) <= i32::MAX,
            spans_fit(body_view(rows@)),
        ensures
            r is Err <==> !old(area_tree).valid_id(table_id) && row_count(body_view(rows@), rows@.len() as int) > 0,
            r matches Err(FopError::Generic(m)) ==> m@ == "parent area not found"@,
            r is Err ==> *final(area_tree) == *old(area_tree),
            !old(area_tree).valid_id(table_id) && r is Ok ==> *final(area_tree) == *old(area_tree) && r->Ok_0 == y_offset,
            old(area_tree).valid_id(table_id) ==> {
                &&& r->Ok_0.mp() == y_offset.mp() + row_height() * row_count(body_view(rows@), rows@.len() as int)
                &&& placed(*final(area_tree), *old(area_tree), table_id, table_items(body_view(rows@),
                    grid_after(body_view(rows@), rows@.len() as int, column_widths@.len() as int), column_widths@,
                    y_offset.mp(), rows@.len() as int, column_widths@.len() as int))
            },
    {
        if table_id.0 >= area_tree.area_count() {
            if has_row(rows) {
                return Err(FopError::Generic(String::from_str("parent area not found")));
            }
            return Ok(y_offset);
        }
        let ghost bv = body_view(rows@);
        let ghost o = *area_tree;
        let ghost base = area_tree.len() as int;
        let cols = column_widths.len();
        let grid = fill_grid(rows, cols);
        let ghost g = grid_of(grid@);
        let ghost ws = column_widths@;
        let nrows = rows.len();
        proof { lemma_grid_after_shape(bv, nrows as int, cols as int); }
        let row_width = sum_widths(column_widths, 0, cols);
        let mut current_y: i64 = y_offset.millipoints() as i64;
        let mut ri: usize = 0;
        proof {
            assert(o.children_of(table_id.0 as int) + row_ids(Seq::<PlannedArea>::empty(), base) =~= o.children_of(table_id.0 as int));
        }
        while ri < nrows
            invariant
                ri <= nrows,
                nrows == rows@.len(),
                cols == column_widths@.len(),
                ws == column_widths@,
                bv == body_view(rows@),
                g == grid_of(grid@),
                grid@.len() == nrows,
                g == grid_after(bv, nrows as int, cols as int),
                grid_shape(g, nrows as int, cols as int),
                base == o.len(),
                o.valid_id(table_id),
                abs_width_sum(ws, 0, ws.len() as int) <= i32::MAX,
                y_offset.mp() + row_height() * row_count(bv, nrows as int) <= i32::MAX,
                spans_fit(bv),
                row_width == width_sum(ws, 0, cols as int),
                i32::MIN <= row_width <= i32::MAX,
                current_y == y_offset.mp() + row_height() * row_count(bv, ri as int),
                placed(*area_tree, o, table_id, table_items(bv, g, ws, y_offset.mp(), ri as int, cols as int)),
            decreases nrows - ri,
        {
            proof {
                assert(bv[ri as int] == match rows@[ri as int] { Some(c) => Some(c@), None => None::<Seq<Option<TableCellSpec>>> });
                lemma_row_count_mono(bv, ri as int + 1, nrows as int);
            }
            match &rows[ri] {
                Some(cells) => {
                    proof {
                        lemma_row_count_mono(bv, ri as int, nrows as int);
                        assert(row_count(bv, ri as int) <= row_count(bv, nrows as int));
                        assert(current_y <= i32::MAX);
                        assert(current_y >= i32::MIN);
                    }
                    let ghost prev = table_items(bv, g, ws, y_offset.mp(), ri as int, cols as int);
                    let row_rect = Rect::new(Length::zero(), Length::from_millipoints(current_y as i32),
                        Length::from_millipoints(row_width as i32), Length::from_millipoints(30000));
                    let row_area = Area::new(AreaType::Block, row_rect);
                    let ghost t0 = *area_tree;
                    let row_id = area_tree.add_area(row_area);
                    let ghost t1 = *area_tree;
                    let appended = area_tree.append_child(table_id, row_id);
                    let ghost row_item = PlannedArea::Row {
                        x: 0, y: current_y as int, width: row_width as int, height: row_height(),
                    };
                    proof {
                        assert(appended is Ok);
                        let t2 = *area_tree;
                        let items = prev.push(row_item);
                        assert(items.drop_last() =~= prev);
                        lemma_last_row_push(prev, row_item);
                        assert forall|i: int| 0 <= i < base && i != table_id.0 implies #[trigger] t2.area_of(i) == o.area_of(i)
                            && t2.parent_of(i) == o.parent_of(i) && t2.children_of(i) == o.children_of(i) by {
                            assert(t1.nodes()[i] == t0.nodes()[i]);
                            assert(t0.area_of(i) == o.area_of(i) && t0.parent_of(i) == o.parent_of(i) && t0.children_of(i) == o.children_of(i));
                        }
                        assert(t1.nodes()[table_id.0 as int] == t0.nodes()[table_id.0 as int]);
                        assert(t2.children_of(table_id.0 as int) =~= o.children_of(table_id.0 as int) + row_ids(items, base));
                        assert forall|m: int| 0 <= m < items.len() implies area_matches(#[trigger] t2.area_of(base + m), items[m]) by {
                            if m < prev.len() {
                                assert(t1.nodes()[base + m] == t0.nodes()[base + m]);
                            assert(area_matches(t0.area_of(base + m), prev[m]));
                            assert(t0.parent_of(base + m) == if prev[m] is Row { Some(table_id) } else { Some(AreaId((base + last_row_before(prev, m)) as usize)) });
                                assert(items[m] == prev[m]);
                            } else {
                                assert(base + m == row_id.0);
                                assert(t2.area_of(base + m) == t1.area_of(row_id.0 as int));
                                assert(t1.area_of(row_id.0 as int) == row_area);
                                assert(items[m] == row_item);
                                assert(row_area.geometry == row_rect);
                                assert(row_area.traits.is_unset());
                                assert(row_area.geometry.x.mp() == 0);
                                assert(row_area.geometry.y.mp() == current_y);
                                assert(row_area.geometry.width.mp() == row_width);
                                assert(row_area.geometry.height.mp() == 30000);
                                assert(area_matches(row_area, row_item));
                            }
                        }
                        assert forall|m: int| 0 <= m < items.len() implies #[trigger] t2.parent_of(base + m) == if items[m] is Row {
                            Some(table_id)
                        } else {
                            Some(AreaId((base + last_row_before(items, m)) as usize))
                        } by {
                            if m < prev.len() {
                                assert(t1.nodes()[base + m] == t0.nodes()[base + m]);
                            assert(area_matches(t0.area_of(base + m), prev[m]));
                            assert(t0.parent_of(base + m) == if prev[m] is Row { Some(table_id) } else { Some(AreaId((base + last_row_before(prev, m)) as usize)) });
                                assert(items[m] == prev[m]);
                            }
                        }
                    }
                    let n = cells.len();
                    let mut k: usize = 0;
                    while k < n
                        invariant
                            k <= n,
                            n == cells@.len(),
                            ri < nrows,
                            nrows == rows@.len(),
                            cols == column_widths@.len(),
                            ws == column_widths@,
                            bv == body_view(rows@),
                            bv[ri as int] == Some(cells@),
                            g == grid_of(grid@),
                            grid@.len() == nrows,
                            grid_shape(g, nrows as int, cols as int),
                            base == o.len(),
                            o.valid_id(table_id),
                            abs_width_sum(ws, 0, ws.len() as int) <= i32::MAX,
                            spans_fit(bv),
                            row_id.0 == base + prev.len(),
                            row_item is Row,
                            placed(*area_tree, o, table_id,
                                prev.push(row_item) + cell_items(g, ri as int, cells@, ws, k as int, cols as int)),
                        decreases n - k,
                    {
                        let ghost done = prev.push(row_item) + cell_items(g, ri as int, cells@, ws, k as int, cols as int);
                        match cells[k] {
                            Some(t) => {
                                let origin = origin_exec(&grid, ri, (ri, k), cols);
                                match origin {
                                    Some(c) => {
                                        proof {
                                            lemma_origin_bound(g, ri as int, (ri, k), 0, cols as int);
                                        }
                                        let cs = span_of(t.columns_spanned);
                                        let rs = span_of(t.rows_spanned);
                                        let c1 = if cs >= cols - c { cols } else { c + cs };
                                        proof {
                                            assert(rows@[ri as int] is Some);
                                            assert(bv[ri as int]->0[k as int] == cells@[k as int]);
                                            assert(bv[ri as int]->0[k as int] is Some);
                                            assert(row_height() * span_value(bv[ri as int]->0[k as int]->0.rows_spanned) <= i32::MAX);
                                        }
                                        let x = sum_widths(column_widths, 0, c);
                                        let w = sum_widths(column_widths, c, c1);
                                        let h: i64 = 30000 * (rs as i64);
                                        let mut traits = TraitSet::default();
                                        traits.background_color = t.background_color;
                                        let cell_rect = Rect::from_point_size(
                                            Point::new(Length::from_millipoints(x as i32), Length::zero()),
                                            Size::new(Length::from_millipoints(w as i32), Length::from_millipoints(h as i32)));
                                        let cell_area = Area::new(AreaType::Block, cell_rect).with_traits(traits);
                                        let ghost u0 = *area_tree;
                                        let cell_id = area_tree.add_area(cell_area);
                                        let ghost u1 = *area_tree;
                                        let _ = area_tree.append_child(row_id, cell_id);
                                        let ghost item = PlannedArea::Cell {
                                            x: x as int, y: 0, width: w as int, height: h as int, background: t.background_color,
                                        };
                                        proof {
                                            let u2 = *area_tree;
                                            let items = done.push(item);
                                            assert(items.drop_last() =~= done);
                                            lemma_last_row_push(done, item);
                                            lemma_last_row_of_group(prev, row_item, g, ri as int, cells@, ws, k as int, cols as int);
                                            assert forall|i: int| 0 <= i < base && i != table_id.0 implies #[trigger] u2.area_of(i) == o.area_of(i)
                                                && u2.parent_of(i) == o.parent_of(i) && u2.children_of(i) == o.children_of(i) by {
                                                assert(u1.nodes()[i] == u0.nodes()[i]);
                                                assert(u0.area_of(i) == o.area_of(i) && u0.parent_of(i) == o.parent_of(i) && u0.children_of(i) == o.children_of(i));
                                            }
                                            assert(u1.nodes()[table_id.0 as int] == u0.nodes()[table_id.0 as int]);
                                            assert(u2.children_of(table_id.0 as int) =~= o.children_of(table_id.0 as int) + row_ids(items, base));
                                            assert forall|m: int| 0 <= m < items.len() implies area_matches(#[trigger] u2.area_of(base + m), items[m]) by {
                                                if m < done.len() {
                                                    assert(u1.nodes()[base + m] == u0.nodes()[base + m]);
                                                assert(area_matches(u0.area_of(base + m), done[m]));
                                                assert(u0.parent_of(base + m) == if done[m] is Row { Some(table_id) } else { Some(AreaId((base + last_row_before(done, m)) as usize)) });
                                                    assert(items[m] == done[m]);
                                                }
                                            }
                                            assert forall|m: int| 0 <= m < items.len() implies #[trigger] u2.parent_of(base + m) == if items[m] is Row {
                                                Some(table_id)
                                            } else {
                                                Some(AreaId((base + last_row_before(items, m)) as usize))
                                            } by {
                                                if m < done.len() {
                                                    assert(u1.nodes()[base + m] == u0.nodes()[base + m]);
                                                assert(area_matches(u0.area_of(base + m), done[m]));
                                                assert(u0.parent_of(base + m) == if done[m] is Row { Some(table_id) } else { Some(AreaId((base + last_row_before(done, m)) as usize)) });
                                                    assert(items[m] == done[m]);
                                                }
                                            }
                                            assert(cell_items(g, ri as int, cells@, ws, k + 1, cols as int)
                                                == cell_items(g, ri as int, cells@, ws, k as int, cols as int).push(item));
                                            assert(prev.push(row_item) + cell_items(g, ri as int, cells@, ws, k + 1, cols as int)
                                                =~= done.push(item));
                                        }
                                    },
                                    None => {
                                        proof {
                                            assert(cell_items(g, ri as int, cells@, ws, k + 1, cols as int)
                                                == cell_items(g, ri as int, cells@, ws, k as int, cols as int));
                                        }
                                    },
                                }
                            },
                            None => {
                                proof {
                                    assert(cell_items(g, ri as int, cells@, ws, k + 1, cols as int)
                                        == cell_items(g, ri as int, cells@, ws, k as int, cols as int));
                                }
                            },
                        }
                        k = k + 1;
                    }
                    proof {
                        assert(table_items(bv, g, ws, y_offset.mp(), ri + 1, cols as int)
                            == prev.push(row_item) + cell_items(g, ri as int, cells@, ws, n as int, cols as int));
                    }
                    current_y = current_y + 30000;
                },
                None => {},
            }
            ri = ri + 1;
        }
        proof {
            lemma_row_count_mono(bv, nrows as int, nrows as int);
            assert(i32::MIN <= current_y <= i32::MAX);
        }
        Ok(Length::from_millipoints(current_y as i32))
    }
}

/// Appending an area leaves the last row before earlier positions unchanged.
proof fn lemma_last_row_push(items: Seq<PlannedArea>, x: PlannedArea)
    ensures
        forall|m: int| 0 <= m <= items.len() ==> #[trigger] last_row_before(items.push(x), m) == last_row_before(items, m),
        last_row_before(items.push(x), items.len() + 1int) == if x is Row { items.len() as int } else { last_row_before(items, items.len() as int) },
{
    assert forall|m: int| 0 <= m <= items.len() implies #[trigger] last_row_before(items.push(x), m) == last_row_before(items, m) by {
        lemma_last_row_push_at(items, x, m);
    }
    assert(items.push(x)[items.len() as int] == x);
    lemma_last_row_push_at(items, x, items.len() as int);
}

/// The same, at one position.
proof fn lemma_last_row_push_at(items: Seq<PlannedArea>, x: PlannedArea, m: int)
    requires
        0 <= m <= items.len(),
    ensures
        last_row_before(items.push(x), m) == last_row_before(items, m),
    decreases m,
{
    if m > 0 {
        assert(items.push(x)[m - 1] == items[m - 1]);
        lemma_last_row_push_at(items, x, m - 1);
    }
}

/// Cell items are all cells.
proof fn lemma_cell_items_cells(g: GridView, r: int, cells: Seq<Option<TableCellSpec>>, ws: Seq<Length>, k: int, cols: int)
    ensures
        forall|j: int| 0 <= j < cell_items(g, r, cells, ws, k, cols).len() ==> #[trigger] cell_items(g, r, cells, ws, k, cols)[j] is Cell,
    decreases k,
{
    if k > 0 {
        lemma_cell_items_cells(g, r, cells, ws, k - 1, cols);
    }
}

/// After a row and some of its cells, the last row is that row.
proof fn lemma_last_row_of_group(prev: Seq<PlannedArea>, row: PlannedArea, g: GridView, r: int, cells: Seq<Option<TableCellSpec>>,
    ws: Seq<Length>, k: int, cols: int)
    requires
        row is Row,
    ensures
        ({
            let items = prev.push(row) + cell_items(g, r, cells, ws, k, cols);
            last_row_before(items, items.len() as int) == prev.len()
        }),
{
    let cs = cell_items(g, r, cells, ws, k, cols);
    let items = prev.push(row) + cs;
    lemma_cell_items_cells(g, r, cells, ws, k, cols);
    lemma_last_row_tail(items, prev.len() as int, items.len() as int);
}

/// With no row after position `p`, where a row stands, the last row up to `m` is `p`.
proof fn lemma_last_row_tail(items: Seq<PlannedArea>, p: int, m: int)
    requires
        0 <= p < m <= items.len(),
        items[p] is Row,
        forall|j: int| p < j < items.len() ==> #[trigger] items[j] is Cell,
    ensures
        last_row_before(items, m) == p,
    decreases m,
{
    if m - 1 > p {
        assert(items[m - 1] is Cell);
        lemma_last_row_tail(items, p, m - 1);
    }
}

/// Row counts grow with the number of children.
proof fn lemma_row_count_mono(rows: Seq<Option<Seq<Option<TableCellSpec>>>>, i: int, j: int)
    requires
        0 <= i <= j,
    ensures
        0 <= row_count(rows, i) <= row_count(rows, j),
    decreases j,
{
    if j > i {
        lemma_row_count_mono(rows, i, j - 1);
    } else if i > 0 {
        lemma_row_count_mono(rows, i - 1, i - 1);
    }
}

/// The column found for a cell lies within the grid.
proof fn lemma_origin_bound(g: GridView, r: int, id: (usize, usize), c: int, cols: int)
    requires
        0 <= c,
    ensures
        origin_from(g, r, id, c, cols) matches Some(x) ==> c <= x < cols,
    decreases cols - c,
{
    if c < cols {
        lemma_origin_bound(g, r, id, c + 1, cols);
    }
}

} // verus!
