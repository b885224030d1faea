//! The state grid: a rectangular, row-major container of cell values.
//!
//! The container itself comes from the `grid` crate and is opaque to the
//! verifier; this module names its logical contents and dimensions and states
//! the contracts of the handful of operations the engine relies on.

use crate::error::CelluminaError;
use vstd::arithmetic::div_mod::{
    lemma_mod_add_multiples_vanish, lemma_mod_sub_multiples_vanish, lemma_small_mod,
};
use vstd::prelude::*;

verus! {

/// A value in `[-m, 2m)` reduced modulo `m` lands back in `[0, m)` by adding
/// or subtracting `m` at most once.
pub proof fn lemma_mod_shift(t: int, m: int)
    requires
        m >= 1,
        -m <= t < 2 * m,
    ensures
        t % m == if t < 0 {
            t + m
        } else if t >= m {
            t - m
        } else {
            t
        },
{
    if t < 0 {
        lemma_mod_add_multiples_vanish(t, m);
        lemma_small_mod((t + m) as nat, m as nat);
    } else if t >= m {
        lemma_mod_sub_multiples_vanish(t, m);
        lemma_small_mod((t - m) as nat, m as nat);
    } else {
        lemma_small_mod(t as nat, m as nat);
    }
}

#[verifier::external_type_specification]
#[verifier::external_body]
#[verifier::reject_recursive_types(T)]
pub struct ExGrid<T>(grid::Grid<T>);

/// The state of a cellular automaton: a rectangular grid of cell values.
pub type CellGrid = grid::Grid<u8>;

/// The logical contents of a grid, row by row (independent of the memory
/// layout the `grid` crate chose).
pub uninterp spec fn grid_cells(g: grid::Grid<u8>) -> Seq<u8>;

/// The number of rows of a grid.
pub uninterp spec fn grid_rows(g: grid::Grid<u8>) -> usize;

/// The number of columns of a grid.
pub uninterp spec fn grid_cols(g: grid::Grid<u8>) -> usize;

/// A grid holds exactly one cell per coordinate pair; the cells are stored
/// in one vector, so there are at most `usize::MAX` of them.
pub open spec fn grid_wf(g: grid::Grid<u8>) -> bool {
    grid_cells(g).len() == (grid_rows(g) as int) * (grid_cols(g) as int) && grid_cells(g).len()
        <= usize::MAX
}

/// The cell of `g` at row `r` and column `c`.
pub open spec fn cell_at(g: grid::Grid<u8>, r: int, c: int) -> u8 {
    grid_cells(g)[r * (grid_cols(g) as int) + c]
}

/// A mathematical stand-in for a grid: its dimensions and its contents in
/// row-major order.
pub struct GridView {
    pub rows: int,
    pub cols: int,
    pub cells: Seq<u8>,
}

impl GridView {
    /// The view holds exactly one cell per coordinate pair.
    pub open spec fn wf(self) -> bool {
        0 <= self.rows && 0 <= self.cols && self.cells.len() == self.rows * self.cols
    }

    /// The cell at row `r` and column `c`.
    pub open spec fn cell(self, r: int, c: int) -> u8 {
        self.cells[r * self.cols + c]
    }
}

/// The mathematical view of a grid value.
pub open spec fn view_of(g: grid::Grid<u8>) -> GridView {
    GridView { rows: grid_rows(g) as int, cols: grid_cols(g) as int, cells: grid_cells(g) }
}

/// Relies on grid::Grid::new: a fresh `rows` by `cols` grid whose cells all
/// hold the default value 0.
#[verifier::external_body]
pub(crate) fn grid_new(rows: usize, cols: usize) -> (g: grid::Grid<u8>)
    requires
        1 <= rows,
        1 <= cols,
        rows * cols <= usize::MAX,
    ensures
        grid_rows(g) == rows,
        grid_cols(g) == cols,
        grid_cells(g).len() == rows * cols,
        grid_wf(g),
        forall|k: int| 0 <= k < rows * cols ==> grid_cells(g)[k] == 0u8,
{
    grid::Grid::new(rows, cols)
}

/// Relies on grid::Grid::from_vec: a grid over the given cells in row-major
/// order, with `vec.len() / cols` rows.
#[verifier::external_body]
pub(crate) fn grid_from_vec(v: Vec<u8>, cols: usize) -> (g: grid::Grid<u8>)
    requires
        1 <= cols,
        1 <= v.len(),
        v.len() % cols == 0,
    ensures
        grid_rows(g) == (v@.len() as int) / (cols as int),
        grid_cols(g) == cols,
        grid_cells(g) == v@,
        grid_wf(g),
{
    grid::Grid::from_vec(v, cols)
}

/// Relies on grid::Grid::rows.
#[verifier::external_body]
pub(crate) fn row_count(g: &grid::Grid<u8>) -> (r: usize)
    ensures
        r == grid_rows(*g),
{
    g.rows()
}

/// Relies on grid::Grid::cols.
#[verifier::external_body]
pub(crate) fn col_count(g: &grid::Grid<u8>) -> (r: usize)
    ensures
        r == grid_cols(*g),
{
    g.cols()
}

/// Relies on grid::Grid::get: `Some` exactly on in-range coordinates.
#[verifier::external_body]
pub(crate) fn grid_get(g: &grid::Grid<u8>, row: usize, col: usize) -> (r: Option<u8>)
    ensures
        match r {
            Some(v) => row < grid_rows(*g) && col < grid_cols(*g) && v == cell_at(
                *g,
                row as int,
                col as int,
            ),
            None => row >= grid_rows(*g) || col >= grid_cols(*g),
        },
{
    match g.get(row, col) {
        Some(v) => Some(*v),
        None => None,
    }
}

/// Reads an in-range cell.
pub(crate) fn grid_read(g: &grid::Grid<u8>, row: usize, col: usize) -> (v: u8)
    requires
        row < grid_rows(*g),
        col < grid_cols(*g),
    ensures
        v == cell_at(*g, row as int, col as int),
{
    match grid_get(g, row, col) {
        Some(v) => v,
        None => {
            proof {
                assert(false);
            }
            0
        },
    }
}

/// Relies on grid::Grid::get_mut: writes one in-range cell in place.
#[verifier::external_body]
pub(crate) fn grid_set(g: &mut grid::Grid<u8>, row: usize, col: usize, v: u8)
    requires
        row < grid_rows(*old(g)),
        col < grid_cols(*old(g)),
    ensures
        grid_rows(*final (g)) == grid_rows(*old(g)),
        grid_cols(*final (g)) == grid_cols(*old(g)),
        grid_cells(*final (g)) == grid_cells(*old(g)).update(
            (row as int) * (grid_cols(*old(g)) as int) + (col as int),
            v,
        ),
{
    if let Some(c) = g.get_mut(row, col) {
        *c = v;
    }
}

/// Relies on grid::Grid::clone: the copy has the same dimensions and cells.
#[verifier::external_body]
pub(crate) fn grid_clone(g: &grid::Grid<u8>) -> (r: grid::Grid<u8>)
    ensures
        grid_rows(r) == grid_rows(*g),
        grid_cols(r) == grid_cols(*g),
        grid_cells(r) == grid_cells(*g),
{
    g.clone()
}

/// Sets the cell at the given coordinates to the given value and reports
/// whether the grid changed; an out-of-range coordinate leaves the grid
/// untouched and is reported as an error carrying the coordinate and the
/// grid's dimensions.
pub fn set_cell(grid: &mut CellGrid, row: u32, col: u32, new_val: u8) -> (res: Result<
    bool,
    CelluminaError,
>)
    requires
        grid_wf(*old(grid)),
        grid_rows(*old(grid)) <= u32::MAX,
        grid_cols(*old(grid)) <= u32::MAX,
    ensures
        grid_rows(*final (grid)) == grid_rows(*old(grid)),
        grid_cols(*final (grid)) == grid_cols(*old(grid)),
        grid_wf(*final (grid)),
        match res {
            Ok(changed) => {
                &&& row < grid_rows(*old(grid))
                &&& col < grid_cols(*old(grid))
                &&& grid_cells(*final (grid)) == grid_cells(*old(grid)).update(
                    (row as int) * (grid_cols(*old(grid)) as int) + (col as int),
                    new_val,
                )
                &&& changed == (cell_at(*old(grid), row as int, col as int) != new_val)
            },
            Err(e) => {
                &&& row >= grid_rows(*old(grid)) || col >= grid_cols(*old(grid))
                &&& grid_cells(*final (grid)) == grid_cells(*old(grid))
                &&& e == CelluminaError::IndexOutOfBoundsError(
                    row,
                    col,
                    grid_rows(*old(grid)) as u32,
                    grid_cols(*old(grid)) as u32,
                )
            },
        },
{
    let rows = row_count(grid);
    let cols = col_count(grid);
    if (row as usize) < rows && (col as usize) < cols {
        let old_val = match grid_get(grid, row as usize, col as usize) {
            Some(v) => v,
            None => 0,
        };
        grid_set(grid, row as usize, col as usize, new_val);
        proof {
            assert(grid_cells(*old(grid)).len() == (rows as int) * (cols as int));
            assert((row as int) * (cols as int) + (col as int) < (rows as int) * (cols as int))
                by (nonlinear_arith)
                requires
                    (row as int) < (rows as int),
                    (col as int) < (cols as int),
                    0 <= row as int,
                    0 <= col as int,
            ;
        }
        Ok(old_val != new_val)
    } else {
        Err(CelluminaError::IndexOutOfBoundsError(row, col, rows as u32, cols as u32))
    }
}


/// The length of the longest of the first `k` lines.
pub open spec fn max_line_len(lines: Seq<Vec<u8>>, k: int) -> int
    decreases k,
{
    if k <= 0 {
        0
    } else if lines[k - 1]@.len() > max_line_len(lines, k - 1) {
        lines[k - 1]@.len() as int
    } else {
        max_line_len(lines, k - 1)
    }
}

/// The cell a text line yields at column `c`: the value of its character
/// there, or 0 past the line's end.
pub open spec fn line_cell(line: Seq<u8>, c: int) -> u8 {
    if c < line.len() {
        crate::spec_char_to_id(line[c] as char)
    } else {
        0u8
    }
}

/// Builds a grid from text lines: one row per line, as many columns as the
/// longest line, shorter lines padded with 0, each character converted to
/// its cell value. Empty input — no lines, or only empty lines — is
/// rejected with an explicit error.
pub fn grid_from_lines(lines: &Vec<Vec<u8>>) -> (res: Result<CellGrid, CelluminaError>)
    ensures
        match res {
            Ok(g) => {
                &&& grid_wf(g)
                &&& grid_rows(g) == lines@.len()
                &&& grid_cols(g) as int == max_line_len(lines@, lines@.len() as int)
                &&& 1 <= grid_rows(g)
                &&& 1 <= grid_cols(g)
                &&& forall|r: int, c: int|
                    0 <= r < lines@.len() && 0 <= c < grid_cols(g) ==> #[trigger] cell_at(g, r, c)
                        == line_cell(lines@[r]@, c)
            },
            Err(_) => lines@.len() == 0 || max_line_len(lines@, lines@.len() as int) == 0,
        },
{
    let n = lines.len();
    let mut cols: usize = 0;
    let mut i: usize = 0;
    while i < n
        invariant
            i <= n,
            n == lines@.len(),
            cols as int == max_line_len(lines@, i as int),
        decreases n - i,
    {
        if lines[i].len() > cols {
            cols = lines[i].len();
        }
        i += 1;
    }
    if n == 0 || cols == 0 {
        return Err(
            CelluminaError::CustomError(empty_lines_error_text()),
        );
    }
    let mut cells: Vec<u8> = Vec::new();
    let mut r: usize = 0;
    while r < n
        invariant
            r <= n,
            n == lines@.len(),
            1 <= cols,
            cells@.len() == (r as int) * (cols as int),
            forall|r2: int, c2: int|
                0 <= r2 < r && 0 <= c2 < cols ==> #[trigger] cells@[r2 * (cols as int) + c2]
                    == line_cell(lines@[r2]@, c2),
        decreases n - r,
    {
        let line = &lines[r];
        let mut c: usize = 0;
        while c < cols
            invariant
                r < n,
                n == lines@.len(),
                c <= cols,
                1 <= cols,
                line@ == lines@[r as int]@,
                cells@.len() == (r as int) * (cols as int) + c,
                forall|r2: int, c2: int|
                    0 <= r2 < r && 0 <= c2 < cols ==> #[trigger] cells@[r2 * (cols as int) + c2]
                        == line_cell(lines@[r2]@, c2),
                forall|c2: int|
                    0 <= c2 < c ==> #[trigger] cells@[(r as int) * (cols as int) + c2]
                        == line_cell(lines@[r as int]@, c2),
            decreases cols - c,
        {
            let v = if c < line.len() {
                crate::char_to_id(line[c] as char)
            } else {
                0u8
            };
            let ghost cells_old = cells@;
            cells.push(v);
            proof {
                assert(v == line_cell(lines@[r as int]@, c as int));
                assert(forall|t: int| 0 <= t < cells_old.len() ==> cells@[t] == #[trigger] cells_old[t]);
                assert forall|r2: int, c2: int|
                    0 <= r2 < r && 0 <= c2 < cols implies #[trigger] cells@[r2 * (cols as int)
                    + c2] == cells_old[r2 * (cols as int) + c2] by {
                    assert(0 <= r2 * (cols as int) + c2 < (r as int) * (cols as int))
                        by (nonlinear_arith)
                        requires
                            0 <= r2 < r as int,
                            0 <= c2 < cols as int,
                    ;
                }
            }
            c += 1;
        }
        proof {
            assert((r as int) * (cols as int) + (cols as int) == (r as int + 1) * (cols as int))
                by (nonlinear_arith);
        }
        r += 1;
        proof {
            assert forall|r2: int, c2: int|
                0 <= r2 < r && 0 <= c2 < cols implies #[trigger] cells@[r2 * (cols as int) + c2]
                == line_cell(lines@[r2]@, c2) by {
                if r2 == r - 1 {
                    assert(cells@[(r - 1) * (cols as int) + c2] == line_cell(
                        lines@[r - 1]@,
                        c2,
                    ));
                }
            }
        }
    }
    proof {
        assert(cells@.len() >= (1int) * (cols as int)) by (nonlinear_arith)
            requires
                cells@.len() == (n as int) * (cols as int),
                1 <= n as int,
                1 <= cols as int,
        ;
        lemma_mod_multiples_basic_local(n as int, cols as int);
        vstd::arithmetic::div_mod::lemma_div_multiples_vanish(n as int, cols as int);
        assert((n as int) * (cols as int) == (cols as int) * (n as int)) by (nonlinear_arith);
    }
    let g = grid_from_vec(cells, cols);
    proof {
        assert(grid_rows(g) == n as int);
        assert forall|r2: int, c2: int|
            0 <= r2 < lines@.len() && 0 <= c2 < grid_cols(g) implies #[trigger] cell_at(g, r2, c2)
            == line_cell(lines@[r2]@, c2) by {
            assert(grid_cells(g)[r2 * (cols as int) + c2] == line_cell(lines@[r2]@, c2));
        }
    }
    Ok(g)
}

/// The product of a count with the divisor leaves no remainder.
proof fn lemma_mod_multiples_basic_local(x: int, m: int)
    requires
        0 <= x,
        1 <= m,
    ensures
        (x * m) % m == 0,
{
    vstd::arithmetic::div_mod::lemma_mod_multiples_basic(x, m);
}

/// Relies on the std `String::from` conversion for the fixed message about
/// empty text input.
#[verifier::external_body]
fn empty_lines_error_text() -> (s: String)
    ensures
        s@.len() > 0,
{
    String::from("text input holds no cells")
}

/// Looks up the cell value for a packed pixel color: the first table entry
/// with that color decides, and an unmatched color falls back to 0.
pub open spec fn color_lookup(table: Seq<(u8, u32)>, pixel: u32) -> u8
    decreases table.len(),
{
    if table.len() == 0 {
        0u8
    } else if table[0].1 == pixel {
        table[0].0
    } else {
        color_lookup(table.drop_first(), pixel)
    }
}

/// The cell value for a packed pixel color, per the color table: the first
/// matching entry wins, an unmatched color maps to cell 0.
pub fn cell_for_color(table: &Vec<(u8, u32)>, pixel: u32) -> (id: u8)
    ensures
        id == color_lookup(table@, pixel),
{
    let n = table.len();
    let mut i: usize = 0;
    proof {
        assert(table@.skip(0) =~= table@);
    }
    while i < n
        invariant
            i <= n,
            n == table@.len(),
            color_lookup(table@, pixel) == color_lookup(table@.skip(i as int), pixel),
        decreases n - i,
    {
        let (key, color) = table[i];
        proof {
            assert(table@.skip(i as int)[0] == table@[i as int]);
            assert(table@.skip(i as int).drop_first() =~= table@.skip(i as int + 1));
        }
        if color == pixel {
            return key;
        }
        i += 1;
    }
    proof {
        assert(table@.skip(n as int) =~= Seq::<(u8, u32)>::empty());
    }
    0
}

} // verus!
