//! Neighborhood rules: each cell's next value is computed from a fixed-size
//! window around it in the previous grid.

use crate::cell_grid::{
    cell_at, col_count, grid_cells, grid_cols, grid_new, grid_read, grid_rows, grid_set, grid_wf,
    lemma_mod_shift, row_count, view_of, CellGrid, GridView,
};
use crate::rule::{BoundaryBehaviour, Rule};
use vstd::arithmetic::div_mod::lemma_fundamental_div_mod_converse;
use vstd::prelude::*;

verus! {

/// The value a rule reads at (possibly out-of-range) coordinates `(r, c)`:
/// the row policy is consulted first, then the column policy; a `Symbol`
/// policy yields its fixed symbol for an out-of-range coordinate, and
/// `Periodic` wraps the coordinate modulo the grid dimension.
pub open spec fn boundary_read(
    g: GridView,
    rb: BoundaryBehaviour,
    cb: BoundaryBehaviour,
    r: int,
    c: int,
) -> u8 {
    if (r < 0 || r >= g.rows) && rb is Symbol {
        rb->0
    } else if (c < 0 || c >= g.cols) && cb is Symbol {
        cb->0
    } else {
        g.cell(r % g.rows, c % g.cols)
    }
}

/// The neighborhood window of the cell at `(r, c)`: a `wr` by `wc` sub-grid
/// read through the boundary policies, whose top-left corner lies `up` rows
/// above and `left` columns left of `(r, c)`.
pub open spec fn window_of(
    g: GridView,
    rb: BoundaryBehaviour,
    cb: BoundaryBehaviour,
    up: int,
    left: int,
    wr: int,
    wc: int,
    r: int,
    c: int,
) -> GridView {
    GridView {
        rows: wr,
        cols: wc,
        cells: Seq::new((wr * wc) as nat, |k: int|
            boundary_read(g, rb, cb, r + k / wc - up, c + k % wc - left)),
    }
}

/// A pure function from a neighborhood window to the next value of the
/// window's center cell. The executable method must agree with the
/// function's mathematical description on every accepted window shape.
pub trait CellTransform: Sized {
    /// The window shapes the transform accepts; it must be total over all
    /// cell values of such windows.
    spec fn wf_window(&self, rows: int, cols: int) -> bool;

    /// The mathematical description of the transform.
    spec fn spec_transform(&self, w: GridView) -> u8;

    /// Computes the next value of the window's center cell.
    fn transform_cell(&self, window: &CellGrid) -> (v: u8)
        requires
            grid_wf(*window),
            self.wf_window(grid_rows(*window) as int, grid_cols(*window) as int),
        ensures
            v == self.spec_transform(view_of(*window)),
    ;
}

/// An environment rule computes each cell's next value purely as a function
/// of a fixed-size neighborhood window around it in the previous grid, so a
/// step never observes partially-updated state.
pub struct EnvironmentRule<F: CellTransform> {
    /// The distance the considered environment extends from the cell to be
    /// set, in order `[top, right, bottom, left]`.
    pub environment_size: [usize; 4],
    /// Behaviour of this rule for environment rows out of bounds of the grid.
    pub row_boundary: BoundaryBehaviour,
    /// Behaviour of this rule for environment columns out of bounds of the grid.
    pub col_boundary: BoundaryBehaviour,
    /// The function that calculates the next state of a single cell based on
    /// its environment.
    pub cell_transform: F,
}

impl<F: CellTransform> EnvironmentRule<F> {
    /// The number of rows of the neighborhood window.
    pub open spec fn win_rows(&self) -> int {
        self.environment_size[0] + self.environment_size[2] + 1
    }

    /// The number of columns of the neighborhood window.
    pub open spec fn win_cols(&self) -> int {
        self.environment_size[3] + self.environment_size[1] + 1
    }

    /// The window of the cell at `(r, c)` in the given grid.
    pub open spec fn window_at(&self, g: GridView, r: int, c: int) -> GridView {
        window_of(
            g,
            self.row_boundary,
            self.col_boundary,
            self.environment_size[0] as int,
            self.environment_size[3] as int,
            self.win_rows(),
            self.win_cols(),
            r,
            c,
        )
    }

    /// The next value of the cell at `(r, c)`: the transform applied to the
    /// cell's window in the previous grid.
    pub open spec fn next_cell(&self, g: GridView, r: int, c: int) -> u8 {
        self.cell_transform.spec_transform(self.window_at(g, r, c))
    }
}

impl<F: CellTransform> Rule for EnvironmentRule<F> {
    open spec fn rule_wf(&self) -> bool {
        self.cell_transform.wf_window(self.win_rows(), self.win_cols())
    }

    open spec fn compatible(&self, rows: int, cols: int) -> bool {
        self.win_rows() <= rows && self.win_cols() <= cols
    }

    open spec fn step_ok(&self, pre: GridView, post: GridView) -> bool {
        &&& post.rows == pre.rows
        &&& post.cols == pre.cols
        &&& post.cells.len() == pre.cells.len()
        &&& forall|r: int, c: int|
            0 <= r < pre.rows && 0 <= c < pre.cols ==> #[trigger] post.cell(r, c)
                == self.next_cell(pre, r, c)
    }

    /// Every cell of the next grid is the transform of that cell's window in
    /// the previous grid, so the update is synchronous: no cell's new value
    /// depends on any value already written in the current step.
    fn transform(&self, grid: &mut CellGrid)
        ensures
            forall|r: int, c: int|
                0 <= r < grid_rows(*old(grid)) && 0 <= c < grid_cols(*old(grid))
                    ==> cell_at(*final (grid), r, c) == self.next_cell(view_of(*old(grid)), r, c),
    {
        let src: &CellGrid = grid;
        let ghost g0 = view_of(*src);
        let rows = row_count(src);
        let cols = col_count(src);
        let up = self.environment_size[0];
        let right = self.environment_size[1];
        let down = self.environment_size[2];
        let left = self.environment_size[3];
        let wr = up + down + 1;
        let wc = left + right + 1;
        proof {
            assert((wr as int) * (wc as int) <= (rows as int) * (cols as int)) by (nonlinear_arith)
                requires
                    1 <= (wr as int) && (wr as int) <= (rows as int),
                    1 <= (wc as int) && (wc as int) <= (cols as int),
            ;
        }
        let mut buffer = grid_new(wr, wc);
        let mut res = grid_new(rows, cols);
        let mut row: usize = 0;
        while row < rows
            invariant
                self.rule_wf(),
                self.compatible(rows as int, cols as int),
                grid_wf(*src),
                g0 == view_of(*src),
                rows == grid_rows(*src),
                cols == grid_cols(*src),
                up == self.environment_size[0],
                right == self.environment_size[1],
                down == self.environment_size[2],
                left == self.environment_size[3],
                wr == self.win_rows(),
                wc == self.win_cols(),
                row <= rows,
                grid_rows(buffer) == wr,
                grid_cols(buffer) == wc,
                grid_wf(buffer),
                grid_rows(res) == rows,
                grid_cols(res) == cols,
                grid_wf(res),
                forall|r: int, c: int|
                    0 <= r < row && 0 <= c < cols ==> grid_cells(res)[r * (cols as int) + c]
                        == #[trigger] self.next_cell(g0, r, c),
            decreases rows - row,
        {
            let mut col: usize = 0;
            while col < cols
                invariant
                    self.rule_wf(),
                    self.compatible(rows as int, cols as int),
                    grid_wf(*src),
                    g0 == view_of(*src),
                    rows == grid_rows(*src),
                    cols == grid_cols(*src),
                    up == self.environment_size[0],
                    right == self.environment_size[1],
                    down == self.environment_size[2],
                    left == self.environment_size[3],
                    wr == self.win_rows(),
                    wc == self.win_cols(),
                    row < rows,
                    col <= cols,
                    grid_rows(buffer) == wr,
                    grid_cols(buffer) == wc,
                    grid_wf(buffer),
                    grid_rows(res) == rows,
                    grid_cols(res) == cols,
                    grid_wf(res),
                    forall|r: int, c: int|
                        0 <= r < row && 0 <= c < cols ==> grid_cells(res)[r * (cols as int) + c]
                            == #[trigger] self.next_cell(g0, r, c),
                    forall|c: int|
                        0 <= c < col ==> grid_cells(res)[(row as int) * (cols as int) + c]
                            == #[trigger] self.next_cell(g0, row as int, c),
                decreases cols - col,
            {
                let ghost win = self.window_at(g0, row as int, col as int);
                let mut i: usize = 0;
                while i < wr
                    invariant
                        grid_wf(*src),
                        g0 == view_of(*src),
                        rows == grid_rows(*src),
                        cols == grid_cols(*src),
                        row < rows,
                        col < cols,
                        wr as int <= rows as int,
                        wc as int <= cols as int,
                        up < wr,
                        left < wc,
                        1 <= wc,
                        i <= wr,
                        up == self.environment_size[0],
                        left == self.environment_size[3],
                        wr == self.win_rows(),
                        wc == self.win_cols(),
                        win == self.window_at(g0, row as int, col as int),
                        win.rows == wr as int,
                        win.cols == wc as int,
                        win.cells.len() == (wr as int) * (wc as int),
                        grid_rows(buffer) == wr,
                        grid_cols(buffer) == wc,
                        grid_wf(buffer),
                        forall|k: int|
                            0 <= k < (i as int) * (wc as int) ==> grid_cells(buffer)[k]
                                == win.cells[k],
                    decreases wr - i,
                {
                    let mut j: usize = 0;
                    while j < wc
                        invariant
                            grid_wf(*src),
                            g0 == view_of(*src),
                            rows == grid_rows(*src),
                            cols == grid_cols(*src),
                            row < rows,
                            col < cols,
                            wr as int <= rows as int,
                            wc as int <= cols as int,
                            up < wr,
                            left < wc,
                            1 <= wc,
                            i < wr,
                            j <= wc,
                            up == self.environment_size[0],
                            left == self.environment_size[3],
                            wr == self.win_rows(),
                            wc == self.win_cols(),
                            win == self.window_at(g0, row as int, col as int),
                            win.rows == wr as int,
                            win.cols == wc as int,
                            win.cells.len() == (wr as int) * (wc as int),
                            grid_rows(buffer) == wr,
                            grid_cols(buffer) == wc,
                            grid_wf(buffer),
                            forall|k: int|
                                0 <= k < (i as int) * (wc as int) + j ==> grid_cells(buffer)[k]
                                    == win.cells[k],
                        decreases wc - j,
                    {
                        let v = read_window_cell(
                            src,
                            self.row_boundary,
                            self.col_boundary,
                            row,
                            col,
                            i,
                            j,
                            up,
                            left,
                        );
                        proof {
                            let k = (i as int) * (wc as int) + (j as int);
                            assert(k < (wr as int) * (wc as int)) by (nonlinear_arith)
                                requires
                                    k == (i as int) * (wc as int) + (j as int),
                                    0 <= (i as int) && (i as int) < (wr as int),
                                    0 <= (j as int) && (j as int) < (wc as int),
                            ;
                            lemma_fundamental_div_mod_converse(k, wc as int, i as int, j as int);
                            assert(k / (wc as int) == i as int);
                            assert(k % (wc as int) == j as int);
                            assert(0 <= k < win.cells.len());
                            assert(win.cells[k] == boundary_read(
                                g0,
                                self.row_boundary,
                                self.col_boundary,
                                (row as int) + k / (wc as int) - (up as int),
                                (col as int) + k % (wc as int) - (left as int),
                            ));
                            assert(win.cells[k] == boundary_read(
                                g0,
                                self.row_boundary,
                                self.col_boundary,
                                row + i - up,
                                col + j - left,
                            ));
                        }
                        let idx_i = i;
                        grid_set(&mut buffer, idx_i, j, v);
                        j += 1;
                    }
                    proof {
                        assert((i as int + 1) * (wc as int) == (i as int) * (wc as int) + (
                        wc as int)) by (nonlinear_arith);
                    }
                    i += 1;
                }
                proof {
                    assert(grid_cells(buffer) =~= win.cells);
                    assert(view_of(buffer) == win);
                }
                let v = self.cell_transform.transform_cell(&buffer);
                proof {
                    assert(v == self.next_cell(g0, row as int, col as int));
                }
                let ghost res_prev = grid_cells(res);
                grid_set(&mut res, row, col, v);
                proof {
                    lemma_row_major_distinct(rows as int, cols as int, row as int, col as int);
                    let w = (row as int) * (cols as int) + (col as int);
                    assert(grid_cells(res) == res_prev.update(w, v));
                    assert(grid_cells(res)[w] == v);
                    assert forall|c2: int| 0 <= c2 <= col implies grid_cells(res)[(row as int) * (
                    cols as int) + c2] == #[trigger] self.next_cell(g0, row as int, c2) by {
                        let idx2 = (row as int) * (cols as int) + c2;
                        if c2 < col {
                            assert(0 <= idx2 < (rows as int) * (cols as int));
                            assert(idx2 != w);
                            assert(grid_cells(res)[idx2] == res_prev[idx2]);
                        }
                    }
                    assert forall|r2: int, c2: int|
                        0 <= r2 < row && 0 <= c2 < cols implies grid_cells(res)[r2 * (cols as int)
                        + c2] == #[trigger] self.next_cell(g0, r2, c2) by {
                        let idx2 = r2 * (cols as int) + c2;
                        assert(0 <= idx2 < (rows as int) * (cols as int));
                        assert(idx2 != w);
                        assert(grid_cells(res)[idx2] == res_prev[idx2]);
                    }
                }
                col += 1;
            }
            row += 1;
        }
        proof {
            assert forall|r: int, c: int| 0 <= r < rows && 0 <= c < cols implies cell_at(res, r, c)
                == self.next_cell(g0, r, c) by {
                assert(grid_cells(res)[r * (cols as int) + c] == self.next_cell(g0, r, c));
            }
            assert(self.step_ok(g0, view_of(res))) by {
                assert forall|r: int, c: int|
                    0 <= r < g0.rows && 0 <= c < g0.cols implies #[trigger] view_of(res).cell(r, c)
                    == self.next_cell(g0, r, c) by {
                    assert(cell_at(res, r, c) == self.next_cell(g0, r, c));
                }
            }
        }
        *grid = res;
    }
}

/// Writing the cell `(row, col)` of a row-major grid changes no other cell's
/// flat index.
proof fn lemma_row_major_distinct(rows: int, cols: int, row: int, col: int)
    requires
        0 <= row < rows,
        0 <= col < cols,
    ensures
        0 <= row * cols + col < rows * cols,
        forall|r: int, c: int|
            0 <= r < rows && 0 <= c < cols ==> 0 <= #[trigger] (r * cols + c) < rows * cols,
        forall|r: int, c: int|
            0 <= r < rows && 0 <= c < cols && (r != row || c != col) ==> #[trigger] (r * cols + c)
                != row * cols + col,
{
    assert(0 <= row * cols + col < rows * cols) by (nonlinear_arith)
        requires
            0 <= row < rows,
            0 <= col < cols,
    ;
    assert forall|r: int, c: int| 0 <= r < rows && 0 <= c < cols implies 0 <= #[trigger] (r * cols
        + c) < rows * cols by {
        assert(0 <= r * cols + c < rows * cols) by (nonlinear_arith)
            requires
                0 <= r < rows,
                0 <= c < cols,
        ;
    }
    assert forall|r: int, c: int|
        0 <= r < rows && 0 <= c < cols && (r != row || c != col) implies #[trigger] (r * cols + c)
        != row * cols + col by {
        if r * cols + c == row * cols + col {
            lemma_fundamental_div_mod_converse(r * cols + c, cols, r, c);
            lemma_fundamental_div_mod_converse(row * cols + col, cols, row, col);
        }
    }
}

/// Reads the window cell at offset `(i, j)` for the grid cell `(row, col)`:
/// the window's top-left corner lies `up` rows above and `left` columns left
/// of `(row, col)`.
fn read_window_cell(
    g: &CellGrid,
    rb: BoundaryBehaviour,
    cb: BoundaryBehaviour,
    row: usize,
    col: usize,
    i: usize,
    j: usize,
    up: usize,
    left: usize,
) -> (v: u8)
    requires
        grid_wf(*g),
        row < grid_rows(*g),
        col < grid_cols(*g),
        i < grid_rows(*g),
        j < grid_cols(*g),
        up < grid_rows(*g),
        left < grid_cols(*g),
    ensures
        v == boundary_read(view_of(*g), rb, cb, row + i - up, col + j - left),
{
    let rows = row_count(g);
    let cols = col_count(g);
    let (row_out, tr) = wrap_offset(row, i, up, rows);
    let (col_out, tc) = wrap_offset(col, j, left, cols);
    if row_out {
        if let BoundaryBehaviour::Symbol(s) = rb {
            return s;
        }
    }
    if col_out {
        if let BoundaryBehaviour::Symbol(s) = cb {
            return s;
        }
    }
    grid_read(g, tr, tc)
}

/// Resolves the axis coordinate `pos + off - back` against an axis of length
/// `len`: reports whether it lies outside `[0, len)` and returns it wrapped
/// modulo `len`.
fn wrap_offset(pos: usize, off: usize, back: usize, len: usize) -> (res: (bool, usize))
    requires
        1 <= len,
        pos < len,
        off < len,
        back < len,
    ensures
        res.0 == !(0 <= pos + off - back < len),
        res.1 == (pos + off - back) % (len as int),
        res.1 < len,
{
    proof {
        lemma_mod_shift(pos + off - back, len as int);
    }
    if off >= back {
        let d = off - back;
        if d == 0 {
            (false, pos)
        } else if pos >= len - d {
            (true, pos - (len - d))
        } else {
            (false, pos + d)
        }
    } else {
        let d = back - off;
        if pos >= d {
            (false, pos - d)
        } else {
            (true, pos + (len - d))
        }
    }
}

/// The standard birth/survival/death transform of Conway's Game of Life over
/// a 3 by 3 window: a cell with value 1 is alive; a dead cell with exactly
/// three live neighbors is born, a live cell with two or three live
/// neighbors survives, and every other cell dies.
pub struct GameOfLifeTransform;

/// The number of cells holding 1 among the first `k` cells of the window.
pub open spec fn live_prefix(cells: Seq<u8>, k: int) -> int
    decreases k,
{
    if k <= 0 {
        0
    } else {
        live_prefix(cells, k - 1) + if cells[k - 1] == 1u8 {
            1int
        } else {
            0int
        }
    }
}

/// The live count of a window prefix is between 0 and the prefix length,
/// and grows by one past every live cell.
pub proof fn lemma_live_prefix_bounds(cells: Seq<u8>, k: int)
    requires
        0 <= k,
    ensures
        0 <= live_prefix(cells, k) <= k,
    decreases k,
{
    if k > 0 {
        lemma_live_prefix_bounds(cells, k - 1);
    }
}

/// The live count over a longer prefix is at least the count over a shorter
/// one.
pub proof fn lemma_live_prefix_mono(cells: Seq<u8>, a: int, b: int)
    requires
        0 <= a <= b,
    ensures
        live_prefix(cells, a) <= live_prefix(cells, b),
    decreases b,
{
    if a < b {
        lemma_live_prefix_mono(cells, a, b - 1);
    }
}

impl CellTransform for GameOfLifeTransform {
    open spec fn wf_window(&self, rows: int, cols: int) -> bool {
        rows == 3 && cols == 3
    }

    open spec fn spec_transform(&self, w: GridView) -> u8 {
        let neighbors = live_prefix(w.cells, 9) - if w.cells[4] == 1u8 {
            1int
        } else {
            0int
        };
        if neighbors == 2 {
            w.cells[4]
        } else if neighbors == 3 {
            1u8
        } else {
            0u8
        }
    }

    fn transform_cell(&self, window: &CellGrid) -> (v: u8) {
        let mut count: u8 = 0;
        let mut k: usize = 0;
        while k < 9
            invariant
                grid_wf(*window),
                grid_rows(*window) == 3,
                grid_cols(*window) == 3,
                k <= 9,
                count == live_prefix(grid_cells(*window), k as int),
                count <= k,
            decreases 9 - k,
        {
            let c = grid_read(window, k / 3, k % 3);
            proof {
                assert((k as int) / 3 * 3 + (k as int) % 3 == k as int) by {
                    vstd::arithmetic::div_mod::lemma_fundamental_div_mod(k as int, 3);
                }
            }
            if c == 1 {
                count += 1;
            }
            k += 1;
        }
        let center = grid_read(window, 1, 1);
        proof {
            assert(cell_at(*window, 1, 1) == grid_cells(*window)[4]);
            if grid_cells(*window)[4] == 1u8 {
                lemma_live_prefix_bounds(grid_cells(*window), 4);
                lemma_live_prefix_mono(grid_cells(*window), 5, 9);
                assert(live_prefix(grid_cells(*window), 5) >= 1);
            }
        }
        let neighbors = if center == 1 {
            count - 1
        } else {
            count
        };
        if neighbors == 2 {
            center
        } else if neighbors == 3 {
            1
        } else {
            0
        }
    }
}

impl EnvironmentRule<GameOfLifeTransform> {
    /// An environment rule running Conway's Game of Life with periodic
    /// boundaries on cell values 1 (alive) and 0 (dead).
    pub fn new_gol() -> (r: Self)
        ensures
            r.environment_size@ == seq![1usize, 1usize, 1usize, 1usize],
            r.row_boundary == BoundaryBehaviour::Periodic,
            r.col_boundary == BoundaryBehaviour::Periodic,
            r.rule_wf(),
            forall|rows: int, cols: int| 3 <= rows && 3 <= cols ==> r.compatible(rows, cols),
    {
        EnvironmentRule {
            environment_size: [1, 1, 1, 1],
            row_boundary: BoundaryBehaviour::Periodic,
            col_boundary: BoundaryBehaviour::Periodic,
            cell_transform: GameOfLifeTransform,
        }
    }
}

} // verus!
