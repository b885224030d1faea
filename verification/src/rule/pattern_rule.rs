//! Search-and-replace rules: patterns matched over a snapshot of the grid,
//! with priority- and chance-based conflict resolution.
//!
//! Each step first finds every anchor position at which some pattern's
//! `before` template matches the current grid; each match yields a
//! replacement group. The groups are then thinned by each pattern's
//! application chance, shuffled (so that ties between equal priorities are
//! broken at random), stably ordered by descending priority, and finally
//! walked once: a group is applied only if none of its target cells was
//! already claimed by an earlier group.

use crate::cell_grid::{
    cell_at, col_count, grid_cells, grid_clone, grid_cols, grid_read, grid_rows, grid_set, grid_wf,
    lemma_mod_shift, row_count, view_of, CellGrid, GridView,
};
use crate::error::CelluminaError;
use crate::rule::{BoundaryBehaviour, Rule};
use crate::WILDCARD;
use vstd::arithmetic::div_mod::{lemma_add_mod_noop, lemma_fundamental_div_mod_converse,
    lemma_small_mod};
use vstd::prelude::*;

use rand::seq::SliceRandom;
use rayon::prelude::{IntoParallelRefIterator, ParallelIterator};

verus! {

pub assume_specification<T>[ rand::random::<T> ]() -> (r: T)
    where
        rand::distr::StandardUniform: rand::distr::Distribution<T>,
;


/// The chance denominator: a pattern with `chance` at or above this value is
/// applied on every match, and one with `chance` 0 never.
pub const CHANCE_SCALE: u32 = 1000000;

/// A pattern consists of a grid of cells to search for and an equally sized
/// grid of cells to replace it with.
///
/// The `before` grid may contain wildcards that match any cell; a wildcard
/// in the `after` grid leaves the matched cell unmodified. `chance` is the
/// probability (in parts of [`CHANCE_SCALE`]) that a found match is actually
/// applied, and matches of a pattern with higher `priority` are applied
/// first when several matches claim the same cells.
pub struct Pattern {
    /// The chance for the pattern to apply on a match, in parts of
    /// [`CHANCE_SCALE`].
    pub chance: u32,
    /// The priority of this pattern over others, in parts of
    /// [`CHANCE_SCALE`].
    pub priority: i64,
    /// The cell pattern to search for.
    pub before: CellGrid,
    /// The cell pattern it should be replaced with.
    pub after: CellGrid,
}

/// The mathematical view of a pattern.
pub struct PatternView {
    pub chance: int,
    pub priority: int,
    pub before: GridView,
    pub after: GridView,
}

/// The view of a pattern value.
pub open spec fn pattern_view(p: Pattern) -> PatternView {
    PatternView {
        chance: p.chance as int,
        priority: p.priority as int,
        before: view_of(p.before),
        after: view_of(p.after),
    }
}

/// A pattern's templates are well-formed, non-empty and of equal dimensions.
pub open spec fn pattern_wf(p: Pattern) -> bool {
    &&& grid_wf(p.before)
    &&& grid_wf(p.after)
    &&& grid_rows(p.before) >= 1
    &&& grid_cols(p.before) >= 1
    &&& grid_rows(p.after) == grid_rows(p.before)
    &&& grid_cols(p.after) == grid_cols(p.before)
}

impl Pattern {
    /// Builds a pattern after validating its templates: both must be
    /// non-empty and of exactly equal dimensions, otherwise the pattern is
    /// rejected with a descriptive error.
    pub fn new(chance: u32, priority: i64, before: CellGrid, after: CellGrid) -> (res: Result<
        Pattern,
        CelluminaError,
    >)
        requires
            grid_wf(before),
            grid_wf(after),
        ensures
            match res {
                Ok(p) => {
                    &&& grid_rows(before) >= 1
                    &&& grid_cols(before) >= 1
                    &&& grid_rows(after) == grid_rows(before)
                    &&& grid_cols(after) == grid_cols(before)
                    &&& p.chance == chance
                    &&& p.priority == priority
                    &&& view_of(p.before) == view_of(before)
                    &&& view_of(p.after) == view_of(after)
                    &&& pattern_wf(p)
                },
                Err(_) => {
                    grid_rows(before) == 0 || grid_cols(before) == 0 || grid_rows(after)
                        != grid_rows(before) || grid_cols(after) != grid_cols(before)
                },
            },
    {
        let b_rows = row_count(&before);
        let b_cols = col_count(&before);
        let a_rows = row_count(&after);
        let a_cols = col_count(&after);
        if b_rows == 0 || b_cols == 0 || a_rows != b_rows || a_cols != b_cols {
            Err(
                CelluminaError::CustomError(
                    dimension_error_text(b_rows, b_cols, a_rows, a_cols),
                ),
            )
        } else {
            Ok(Pattern { chance, priority, before, after })
        }
    }
}

/// Relies on the std `format!` macro to render the dimension-mismatch
/// message.
#[verifier::external_body]
fn dimension_error_text(b_rows: usize, b_cols: usize, a_rows: usize, a_cols: usize) -> (s: String)
    ensures
        s@.len() > 0,
{
    format!(
        "pattern templates must be non-empty and of equal dimensions, got {}x{} before and {}x{} after",
        b_rows,
        b_cols,
        a_rows,
        a_cols,
    )
}

impl Default for Pattern {
    /// The default pattern is a single wildcard cell replaced by a wildcard
    /// cell, applied with full chance at priority zero: it matches anywhere
    /// and changes nothing.
    fn default() -> (p: Pattern)
        ensures
            p.chance == CHANCE_SCALE,
            p.priority == 0,
            pattern_wf(p),
            view_of(p.before) == (GridView { rows: 1, cols: 1, cells: seq![WILDCARD] }),
            view_of(p.after) == (GridView { rows: 1, cols: 1, cells: seq![WILDCARD] }),
    {
        let before = crate::cell_grid::grid_from_vec(vec![WILDCARD], 1);
        let after = crate::cell_grid::grid_from_vec(vec![WILDCARD], 1);
        proof {
            assert(view_of(before).cells =~= seq![WILDCARD]);
            assert(view_of(after).cells =~= seq![WILDCARD]);
        }
        Pattern { chance: CHANCE_SCALE, priority: 0, before, after }
    }
}

impl Clone for Pattern {
    /// The copy has the same chance, priority and templates.
    fn clone(&self) -> (r: Pattern)
        ensures
            r.chance == self.chance,
            r.priority == self.priority,
            view_of(r.before) == view_of(self.before),
            view_of(r.after) == view_of(self.after),
            pattern_view(r) == pattern_view(*self),
    {
        Pattern {
            chance: self.chance,
            priority: self.priority,
            before: grid_clone(&self.before),
            after: grid_clone(&self.after),
        }
    }
}

/// One cell write of a replacement group: the target coordinates and the
/// value to be written there.
#[derive(Clone, Copy, PartialEq, Eq, Structural, Debug)]
pub struct CellWrite {
    pub row: usize,
    pub col: usize,
    pub value: u8,
}

/// A replacement group: the writes produced by one match of one pattern,
/// together with the pattern's priority and chance.
pub struct Replacement {
    /// The priority of the pattern the match belongs to.
    pub priority: i64,
    /// The chance of the pattern the match belongs to.
    pub chance: u32,
    /// The cell writes of this group, in row-major template order.
    pub cells: Vec<CellWrite>,
}

/// The mathematical view of a replacement group.
pub struct RepView {
    pub priority: int,
    pub chance: int,
    pub cells: Seq<CellWrite>,
}

/// The view of a replacement group value.
pub open spec fn rep_view(r: Replacement) -> RepView {
    RepView { priority: r.priority as int, chance: r.chance as int, cells: r.cells@ }
}

/// The views of a sequence of replacement groups.
pub open spec fn rep_views(s: Seq<Replacement>) -> Seq<RepView> {
    Seq::new(s.len(), |i: int| rep_view(s[i]))
}

/// The number of candidate anchor rows for a pattern: under a `Symbol`
/// policy, windows that would leave the grid are skipped entirely; under
/// `Periodic`, every row anchors a (wrapping) window.
pub open spec fn anchor_rows(g: GridView, p: PatternView, rb: BoundaryBehaviour) -> int {
    if rb is Periodic {
        g.rows
    } else if p.before.rows <= g.rows {
        g.rows - p.before.rows + 1
    } else {
        0
    }
}

/// The number of candidate anchor columns for a pattern.
pub open spec fn anchor_cols(g: GridView, p: PatternView, cb: BoundaryBehaviour) -> int {
    if cb is Periodic {
        g.cols
    } else if p.before.cols <= g.cols {
        g.cols - p.before.cols + 1
    } else {
        0
    }
}

/// The `before` template matches the grid at anchor `(ar, ac)`: every
/// non-wildcard template cell equals the grid cell it covers, coordinates
/// wrapping modulo the grid dimensions.
pub open spec fn matches_at(g: GridView, before: GridView, ar: int, ac: int) -> bool {
    forall|i: int, j: int|
        0 <= i < before.rows && 0 <= j < before.cols ==> (#[trigger] before.cell(i, j)) == WILDCARD
            || before.cell(i, j) == g.cell((ar + i) % g.rows, (ac + j) % g.cols)
}

/// The cell writes of a match at anchor `(ar, ac)`, for the template cells
/// from flat index `k` on: one write per non-wildcard `after` cell, at the
/// covered (wrapped) grid coordinates.
pub open spec fn group_cells_from(g: GridView, after: GridView, ar: int, ac: int, k: int) -> Seq<
    CellWrite,
>
    decreases after.rows * after.cols - k,
{
    let total = after.rows * after.cols;
    if !(0 <= k < total) {
        Seq::empty()
    } else {
        let i = k / after.cols;
        let j = k % after.cols;
        let v = after.cell(i, j);
        (if v == WILDCARD {
            Seq::empty()
        } else {
            seq![
                CellWrite {
                    row: (((ar + i) % g.rows) as usize),
                    col: (((ac + j) % g.cols) as usize),
                    value: v,
                },
            ]
        }) + group_cells_from(g, after, ar, ac, k + 1)
    }
}

/// The cell writes of a match at anchor `(ar, ac)`.
pub open spec fn group_cells(g: GridView, after: GridView, ar: int, ac: int) -> Seq<CellWrite> {
    group_cells_from(g, after, ar, ac, 0)
}

/// The replacement groups of one pattern, for the anchors from flat index
/// `k` on, in row-major anchor order.
pub open spec fn groups_from(
    g: GridView,
    p: PatternView,
    rb: BoundaryBehaviour,
    cb: BoundaryBehaviour,
    k: int,
) -> Seq<RepView>
    decreases anchor_rows(g, p, rb) * anchor_cols(g, p, cb) - k,
{
    let total = anchor_rows(g, p, rb) * anchor_cols(g, p, cb);
    if !(0 <= k < total) {
        Seq::empty()
    } else {
        let ar = k / anchor_cols(g, p, cb);
        let ac = k % anchor_cols(g, p, cb);
        (if matches_at(g, p.before, ar, ac) {
            seq![
                RepView {
                    priority: p.priority,
                    chance: p.chance,
                    cells: group_cells(g, p.after, ar, ac),
                },
            ]
        } else {
            Seq::empty()
        }) + groups_from(g, p, rb, cb, k + 1)
    }
}

/// All replacement groups of one pattern against the given grid.
pub open spec fn pattern_groups(
    g: GridView,
    p: PatternView,
    rb: BoundaryBehaviour,
    cb: BoundaryBehaviour,
) -> Seq<RepView> {
    groups_from(g, p, rb, cb, 0)
}

/// The views of a sequence of patterns.
pub open spec fn pattern_views(s: Seq<Pattern>) -> Seq<PatternView> {
    Seq::new(s.len(), |i: int| pattern_view(s[i]))
}

/// The replacement groups of all patterns from index `k` on, concatenated
/// in pattern order.
pub open spec fn rule_groups_from(
    g: GridView,
    ps: Seq<PatternView>,
    rb: BoundaryBehaviour,
    cb: BoundaryBehaviour,
    k: int,
) -> Seq<RepView>
    decreases ps.len() - k,
{
    if !(0 <= k < ps.len()) {
        Seq::empty()
    } else {
        pattern_groups(g, ps[k], rb, cb) + rule_groups_from(g, ps, rb, cb, k + 1)
    }
}

/// The replacement groups of a whole rule: every match of every pattern.
pub open spec fn rule_groups(
    g: GridView,
    ps: Seq<PatternView>,
    rb: BoundaryBehaviour,
    cb: BoundaryBehaviour,
) -> Seq<RepView> {
    rule_groups_from(g, ps, rb, cb, 0)
}

/// Wraps `pos + off` modulo `len`.
pub(crate) fn wrap_add(pos: usize, off: usize, len: usize) -> (r: usize)
    requires
        1 <= len,
        pos < len,
    ensures
        r == (pos + off) % (len as int),
        r < len,
{
    let d = off % len;
    proof {
        lemma_add_mod_noop(pos as int, off as int, len as int);
        lemma_small_mod(pos as nat, len as nat);
        lemma_mod_shift(pos + d, len as int);
        lemma_small_mod((pos + d) as nat % (len as nat), len as nat);
    }
    if d == 0 {
        pos
    } else if pos >= len - d {
        pos - (len - d)
    } else {
        pos + d
    }
}

/// Whether the pattern's `before` template matches the grid at the given
/// anchor.
fn pattern_matches(pattern: &Pattern, grid: &CellGrid, ar: usize, ac: usize) -> (b: bool)
    requires
        pattern_wf(*pattern),
        grid_wf(*grid),
        1 <= grid_rows(*grid),
        1 <= grid_cols(*grid),
        ar < grid_rows(*grid),
        ac < grid_cols(*grid),
    ensures
        b == matches_at(view_of(*grid), view_of(pattern.before), ar as int, ac as int),
{
    let ghost g = view_of(*grid);
    let ghost bv = view_of(pattern.before);
    let rows = row_count(grid);
    let cols = col_count(grid);
    let p_rows = row_count(&pattern.before);
    let p_cols = col_count(&pattern.before);
    let mut i: usize = 0;
    while i < p_rows
        invariant
            pattern_wf(*pattern),
            grid_wf(*grid),
            g == view_of(*grid),
            bv == view_of(pattern.before),
            rows == grid_rows(*grid),
            cols == grid_cols(*grid),
            p_rows == grid_rows(pattern.before),
            p_cols == grid_cols(pattern.before),
            1 <= rows,
            1 <= cols,
            ar < rows,
            ac < cols,
            i <= p_rows,
            forall|i2: int, j2: int|
                0 <= i2 < i && 0 <= j2 < p_cols ==> (#[trigger] bv.cell(i2, j2)) == WILDCARD
                    || bv.cell(i2, j2) == g.cell((ar + i2) % (rows as int), (ac + j2) % (
                cols as int)),
        decreases p_rows - i,
    {
        let mut j: usize = 0;
        while j < p_cols
            invariant
                pattern_wf(*pattern),
                grid_wf(*grid),
                g == view_of(*grid),
                bv == view_of(pattern.before),
                rows == grid_rows(*grid),
                cols == grid_cols(*grid),
                p_rows == grid_rows(pattern.before),
                p_cols == grid_cols(pattern.before),
                1 <= rows,
                1 <= cols,
                ar < rows,
                ac < cols,
                i < p_rows,
                j <= p_cols,
                forall|i2: int, j2: int|
                    0 <= i2 < i && 0 <= j2 < p_cols ==> (#[trigger] bv.cell(i2, j2)) == WILDCARD
                        || bv.cell(i2, j2) == g.cell((ar + i2) % (rows as int), (ac + j2) % (
                    cols as int)),
                forall|j2: int|
                    0 <= j2 < j ==> (#[trigger] bv.cell(i as int, j2)) == WILDCARD || bv.cell(
                        i as int,
                        j2,
                    ) == g.cell((ar + i) % (rows as int), (ac + j2) % (cols as int)),
            decreases p_cols - j,
        {
            let b = grid_read(&pattern.before, i, j);
            proof {
                lemma_cell_index(grid_rows(pattern.before) as int, p_cols as int, i as int,
                    j as int);
                assert(b == bv.cell(i as int, j as int));
            }
            if b != WILDCARD {
                let tr = wrap_add(ar, i, rows);
                let tc = wrap_add(ac, j, cols);
                let gv = grid_read(grid, tr, tc);
                proof {
                    lemma_cell_index(rows as int, cols as int, tr as int, tc as int);
                    assert(gv == g.cell((ar + i) % (rows as int), (ac + j) % (cols as int)));
                }
                if gv != b {
                    proof {
                        assert(!matches_at(g, bv, ar as int, ac as int)) by {
                            assert(bv.cell(i as int, j as int) != WILDCARD && bv.cell(
                                i as int,
                                j as int,
                            ) != g.cell(((ar + i) as int) % g.rows, ((ac + j) as int) % g.cols));
                        }
                    }
                    return false;
                }
            }
            j += 1;
        }
        i += 1;
    }
    true
}

/// The flat index of an in-range cell is in range, so [`GridView::cell`]
/// reads inside the contents sequence.
pub proof fn lemma_cell_index(rows: int, cols: int, r: int, c: int)
    requires
        0 <= r < rows,
        0 <= c < cols,
    ensures
        0 <= r * cols + c < rows * cols,
{
    assert(0 <= r * cols + c < rows * cols) by (nonlinear_arith)
        requires
            0 <= r < rows,
            0 <= c < cols,
    ;
}


/// Builds the replacement group of a match at anchor `(ar, ac)`: one cell
/// write per non-wildcard `after` cell.
fn build_group(pattern: &Pattern, rows: usize, cols: usize, ar: usize, ac: usize) -> (v: Vec<
    CellWrite,
>)
    requires
        pattern_wf(*pattern),
        1 <= rows,
        1 <= cols,
        ar < rows,
        ac < cols,
    ensures
        v@ == group_cells(
            GridView { rows: rows as int, cols: cols as int, cells: Seq::empty() },
            view_of(pattern.after),
            ar as int,
            ac as int,
        ),
{
    let ghost g = GridView { rows: rows as int, cols: cols as int, cells: Seq::empty() };
    let ghost av = view_of(pattern.after);
    let p_rows = row_count(&pattern.after);
    let p_cols = col_count(&pattern.after);
    let ghost total = (p_rows as int) * (p_cols as int);
    let mut acc: Vec<CellWrite> = Vec::new();
    let mut k: usize = 0;
    proof {
        assert(p_rows * p_cols <= usize::MAX) by {
            assert(grid_cells(pattern.after).len() == (p_rows as int) * (p_cols as int));
        }
    }
    while k < p_rows * p_cols
        invariant
            pattern_wf(*pattern),
            g == (GridView { rows: rows as int, cols: cols as int, cells: Seq::empty() }),
            av == view_of(pattern.after),
            p_rows == grid_rows(pattern.after),
            p_cols == grid_cols(pattern.after),
            1 <= p_cols,
            1 <= rows,
            1 <= cols,
            ar < rows,
            ac < cols,
            total == (p_rows as int) * (p_cols as int),
            p_rows * p_cols <= usize::MAX,
            k <= p_rows * p_cols,
            group_cells(g, av, ar as int, ac as int) == acc@ + group_cells_from(
                g,
                av,
                ar as int,
                ac as int,
                k as int,
            ),
        decreases p_rows * p_cols - k,
    {
        let i = k / p_cols;
        let j = k % p_cols;
        proof {
            vstd::arithmetic::div_mod::lemma_fundamental_div_mod(k as int, p_cols as int);
            assert(i as int == (k as int) / (p_cols as int));
            assert(j as int == (k as int) % (p_cols as int));
            assert((p_cols as int) * (i as int) == (i as int) * (p_cols as int)) by (nonlinear_arith);
            assert((i as int) * (p_cols as int) + (j as int) == k as int);
            assert((k as int) < total);
            assert((i as int) < (p_rows as int)) by (nonlinear_arith)
                requires
                    (k as int) < (p_rows as int) * (p_cols as int),
                    (i as int) * (p_cols as int) + (j as int) == k as int,
                    0 <= (j as int) < (p_cols as int),
                    0 <= i as int,
                    1 <= p_cols as int,
            ;
            lemma_cell_index(p_rows as int, p_cols as int, i as int, j as int);
        }
        let rep = grid_read(&pattern.after, i, j);
        proof {
            assert(rep == av.cell(i as int, j as int));
        }
        if rep != WILDCARD {
            let tr = wrap_add(ar, i, rows);
            let tc = wrap_add(ac, j, cols);
            let cw = CellWrite { row: tr, col: tc, value: rep };
            let ghost acc_old = acc@;
            acc.push(cw);
            proof {
                assert(acc@ =~= acc_old + seq![cw]);
                assert(group_cells_from(g, av, ar as int, ac as int, k as int) == seq![cw]
                    + group_cells_from(g, av, ar as int, ac as int, k as int + 1));
                assert(acc_old + (seq![cw] + group_cells_from(g, av, ar as int, ac as int, k as int
                    + 1)) =~= (acc_old + seq![cw]) + group_cells_from(
                    g,
                    av,
                    ar as int,
                    ac as int,
                    k as int + 1,
                ));
            }
        } else {
            proof {
                assert(group_cells_from(g, av, ar as int, ac as int, k as int)
                    == Seq::<CellWrite>::empty() + group_cells_from(
                    g,
                    av,
                    ar as int,
                    ac as int,
                    k as int + 1,
                ));
                assert(Seq::<CellWrite>::empty() + group_cells_from(
                    g,
                    av,
                    ar as int,
                    ac as int,
                    k as int + 1,
                ) =~= group_cells_from(g, av, ar as int, ac as int, k as int + 1));
            }
        }
        k += 1;
    }
    proof {
        assert(group_cells_from(g, av, ar as int, ac as int, k as int) =~= Seq::<
            CellWrite,
        >::empty());
        assert(acc@ + Seq::<CellWrite>::empty() =~= acc@);
    }
    acc
}

/// Finds every match of one pattern against the given grid and returns the
/// replacement groups, in row-major anchor order. The candidate anchors
/// range over the whole grid under a `Periodic` policy and exclude anchors
/// whose window would leave the grid under a `Symbol` policy.
pub(crate) fn find_matches(
    pattern: &Pattern,
    grid: &CellGrid,
    rb: BoundaryBehaviour,
    cb: BoundaryBehaviour,
) -> (v: Vec<Replacement>)
    requires
        pattern_wf(*pattern),
        grid_wf(*grid),
    ensures
        rep_views(v@) == pattern_groups(view_of(*grid), pattern_view(*pattern), rb, cb),
{
    let ghost g = view_of(*grid);
    let ghost pv = pattern_view(*pattern);
    let rows = row_count(grid);
    let cols = col_count(grid);
    let p_rows = row_count(&pattern.before);
    let p_cols = col_count(&pattern.before);
    let row_stop: usize = match rb {
        BoundaryBehaviour::Periodic => rows,
        BoundaryBehaviour::Symbol(_) => if p_rows <= rows {
            rows - p_rows + 1
        } else {
            0
        },
    };
    let col_stop: usize = match cb {
        BoundaryBehaviour::Periodic => cols,
        BoundaryBehaviour::Symbol(_) => if p_cols <= cols {
            cols - p_cols + 1
        } else {
            0
        },
    };
    proof {
        assert(row_stop as int == anchor_rows(g, pv, rb));
        assert(col_stop as int == anchor_cols(g, pv, cb));
    }
    let ghost total = anchor_rows(g, pv, rb) * anchor_cols(g, pv, cb);
    let mut acc: Vec<Replacement> = Vec::new();
    if row_stop == 0 || col_stop == 0 {
        proof {
            assert(total == 0) by (nonlinear_arith)
                requires
                    total == (row_stop as int) * (col_stop as int),
                    row_stop as int == 0 || col_stop as int == 0,
            ;
            assert(rep_views(acc@) =~= pattern_groups(g, pv, rb, cb));
        }
        return acc;
    }
    let mut ar: usize = 0;
    while ar < row_stop
        invariant
            pattern_wf(*pattern),
            grid_wf(*grid),
            g == view_of(*grid),
            pv == pattern_view(*pattern),
            rows == grid_rows(*grid),
            cols == grid_cols(*grid),
            p_rows == grid_rows(pattern.before),
            p_cols == grid_cols(pattern.before),
            row_stop as int == anchor_rows(g, pv, rb),
            col_stop as int == anchor_cols(g, pv, cb),
            total == (row_stop as int) * (col_stop as int),
            1 <= row_stop <= rows,
            1 <= col_stop <= cols,
            ar <= row_stop,
            pattern_groups(g, pv, rb, cb) == rep_views(acc@) + groups_from(
                g,
                pv,
                rb,
                cb,
                (ar as int) * (col_stop as int),
            ),
        decreases row_stop - ar,
    {
        let mut ac: usize = 0;
        while ac < col_stop
            invariant
                pattern_wf(*pattern),
                grid_wf(*grid),
                g == view_of(*grid),
                pv == pattern_view(*pattern),
                rows == grid_rows(*grid),
                cols == grid_cols(*grid),
                p_rows == grid_rows(pattern.before),
                p_cols == grid_cols(pattern.before),
                row_stop as int == anchor_rows(g, pv, rb),
                col_stop as int == anchor_cols(g, pv, cb),
                total == (row_stop as int) * (col_stop as int),
                1 <= row_stop <= rows,
                1 <= col_stop <= cols,
                ar < row_stop,
                ac <= col_stop,
                pattern_groups(g, pv, rb, cb) == rep_views(acc@) + groups_from(
                    g,
                    pv,
                    rb,
                    cb,
                    (ar as int) * (col_stop as int) + (ac as int),
                ),
            decreases col_stop - ac,
        {
            let ghost k = (ar as int) * (col_stop as int) + (ac as int);
            proof {
                lemma_cell_index(row_stop as int, col_stop as int, ar as int, ac as int);
                lemma_fundamental_div_mod_converse(k, col_stop as int, ar as int, ac as int);
            }
            let matched = pattern_matches(pattern, grid, ar, ac);
            if matched {
                let group = build_group(pattern, rows, cols, ar, ac);
                let rep = Replacement { priority: pattern.priority, chance: pattern.chance, cells: group };
                let ghost acc_old = acc@;
                acc.push(rep);
                proof {
                    let ghost gc = GridView { rows: rows as int, cols: cols as int, cells: Seq::<u8>::empty() };
                    assert(group_cells(gc, pv.after, ar as int, ac as int) =~= group_cells(
                        g,
                        pv.after,
                        ar as int,
                        ac as int,
                    )) by {
                        lemma_group_cells_dims(gc, g, pv.after, ar as int, ac as int, 0);
                    }
                    assert(rep_view(rep) == RepView {
                        priority: pv.priority,
                        chance: pv.chance,
                        cells: group_cells(g, pv.after, ar as int, ac as int),
                    });
                    assert(groups_from(g, pv, rb, cb, k) == seq![rep_view(rep)] + groups_from(
                        g,
                        pv,
                        rb,
                        cb,
                        k + 1,
                    ));
                    assert(rep_views(acc@) =~= rep_views(acc_old) + seq![rep_view(rep)]);
                    assert(rep_views(acc_old) + (seq![rep_view(rep)] + groups_from(g, pv, rb, cb, k
                        + 1)) =~= (rep_views(acc_old) + seq![rep_view(rep)]) + groups_from(
                        g,
                        pv,
                        rb,
                        cb,
                        k + 1,
                    ));
                }
            } else {
                proof {
                    assert(groups_from(g, pv, rb, cb, k) =~= groups_from(g, pv, rb, cb, k + 1));
                }
            }
            ac += 1;
        }
        proof {
            assert((ar as int + 1) * (col_stop as int) == (ar as int) * (col_stop as int) + (
            col_stop as int)) by (nonlinear_arith);
        }
        ar += 1;
    }
    proof {
        assert(groups_from(g, pv, rb, cb, (row_stop as int) * (col_stop as int)) =~= Seq::<
            RepView,
        >::empty());
        assert(rep_views(acc@) + Seq::<RepView>::empty() =~= rep_views(acc@));
    }
    acc
}

/// The cell writes of a group depend only on the grid dimensions, not on its
/// contents.
proof fn lemma_group_cells_dims(g1: GridView, g2: GridView, after: GridView, ar: int, ac: int, k: int)
    requires
        g1.rows == g2.rows,
        g1.cols == g2.cols,
    ensures
        group_cells_from(g1, after, ar, ac, k) == group_cells_from(g2, after, ar, ac, k),
    decreases after.rows * after.cols - k,
{
    if 0 <= k < after.rows * after.cols {
        lemma_group_cells_dims(g1, g2, after, ar, ac, k + 1);
    }
}


/// Some write of the group targets the cell `(r, c)`.
pub open spec fn covers(cells: Seq<CellWrite>, r: int, c: int) -> bool {
    exists|k: int|
        0 <= k < cells.len() && (#[trigger] cells[k]).row == r && cells[k].col == c
}

/// The set of cells the group writes.
pub open spec fn cells_set(cells: Seq<CellWrite>) -> Set<(int, int)> {
    Set::new(|rc: (int, int)| covers(cells, rc.0, rc.1))
}

/// No write of the group targets an already claimed cell.
pub open spec fn group_free(cells: Seq<CellWrite>, claimed: Set<(int, int)>) -> bool {
    forall|k: int|
        0 <= k < cells.len() ==> !claimed.contains(
            (((#[trigger] cells[k]).row as int), (cells[k].col as int)),
        )
}

/// The set of cells claimed by the approved groups among the first `i`
/// groups of the walk.
pub open spec fn claimed_upto(s: Seq<RepView>, i: int) -> Set<(int, int)>
    decreases i,
{
    if i <= 0 {
        Set::empty()
    } else {
        let prev = claimed_upto(s, i - 1);
        if group_free(s[i - 1].cells, prev) {
            prev.union(cells_set(s[i - 1].cells))
        } else {
            prev
        }
    }
}

/// The group at index `i` is approved by the claim walk: none of its target
/// cells was claimed by an approved earlier group.
pub open spec fn approved(s: Seq<RepView>, i: int) -> bool {
    group_free(s[i].cells, claimed_upto(s, i))
}

/// The grid contents after performing the given writes in order; a later
/// write to the same cell wins.
pub open spec fn write_seq(data: Seq<u8>, cols: int, cells: Seq<CellWrite>) -> Seq<u8>
    decreases cells.len(),
{
    if cells.len() == 0 {
        data
    } else {
        let cw = cells.last();
        write_seq(data, cols, cells.drop_last()).update((cw.row as int) * cols + (cw.col as int), cw.value)
    }
}

/// The grid contents after the claim walk over the groups from index `i`
/// on: each approved group's writes are applied, the rest are discarded.
pub open spec fn apply_from(data: Seq<u8>, cols: int, s: Seq<RepView>, i: int) -> Seq<u8>
    decreases s.len() - i,
{
    if !(0 <= i < s.len()) {
        data
    } else {
        apply_from(
            if approved(s, i) {
                write_seq(data, cols, s[i].cells)
            } else {
                data
            },
            cols,
            s,
            i + 1,
        )
    }
}

/// The grid contents after the whole claim walk.
pub open spec fn apply_groups(data: Seq<u8>, cols: int, s: Seq<RepView>) -> Seq<u8> {
    apply_from(data, cols, s, 0)
}

/// Every write of every group targets a cell inside a `rows` by `cols`
/// grid.
pub open spec fn groups_in_range(s: Seq<RepView>, rows: int, cols: int) -> bool {
    forall|i: int, k: int|
        0 <= i < s.len() && 0 <= k < s[i].cells.len() ==> ((#[trigger] s[i].cells[k]).row as int)
            < rows && (s[i].cells[k].col as int) < cols
}

/// The groups are ordered by non-increasing priority.
pub open spec fn sorted_desc(s: Seq<RepView>) -> bool {
    forall|i: int, j: int| 0 <= i < j < s.len() ==> (#[trigger] s[i]).priority >= (#[trigger] s[j]).priority
}

/// Every write of the group targets a cell inside a `rows` by `cols` grid.
pub open spec fn writes_in_range(cells: Seq<CellWrite>, rows: int, cols: int) -> bool {
    forall|k: int|
        0 <= k < cells.len() ==> ((#[trigger] cells[k]).row as int) < rows && (
        cells[k].col as int) < cols
}

/// Applying in-range writes keeps the contents length.
pub proof fn lemma_write_seq_len(data: Seq<u8>, rows: int, cols: int, cells: Seq<CellWrite>)
    requires
        data.len() == rows * cols,
        writes_in_range(cells, rows, cols),
    ensures
        write_seq(data, cols, cells).len() == data.len(),
    decreases cells.len(),
{
    if cells.len() > 0 {
        assert(writes_in_range(cells.drop_last(), rows, cols)) by {
            assert(forall|k: int|
                0 <= k < cells.len() - 1 ==> cells.drop_last()[k] == (#[trigger] cells[k]));
        }
        lemma_write_seq_len(data, rows, cols, cells.drop_last());
        let cw = cells.last();
        lemma_cell_index(rows, cols, cw.row as int, cw.col as int);
    }
}

/// Applying the walk keeps the contents length.
pub proof fn lemma_apply_from_len(data: Seq<u8>, rows: int, cols: int, s: Seq<RepView>, i: int)
    requires
        data.len() == rows * cols,
        groups_in_range(s, rows, cols),
    ensures
        apply_from(data, cols, s, i).len() == data.len(),
    decreases s.len() - i,
{
    if 0 <= i < s.len() {
        lemma_write_seq_len(data, rows, cols, s[i].cells);
        if approved(s, i) {
            lemma_apply_from_len(write_seq(data, cols, s[i].cells), rows, cols, s, i + 1);
        } else {
            lemma_apply_from_len(data, rows, cols, s, i + 1);
        }
    }
}

/// Performs the claim walk: walks the groups once in order, approves each
/// group whose target cells are all unclaimed, writes its cells into the
/// grid and claims them; rejected groups are discarded.
fn apply_replacements(grid: &mut CellGrid, groups: &Vec<Replacement>)
    requires
        grid_wf(*old(grid)),
        groups_in_range(
            rep_views(groups@),
            grid_rows(*old(grid)) as int,
            grid_cols(*old(grid)) as int,
        ),
    ensures
        grid_wf(*final (grid)),
        grid_rows(*final (grid)) == grid_rows(*old(grid)),
        grid_cols(*final (grid)) == grid_cols(*old(grid)),
        grid_cells(*final (grid)) == apply_groups(
            grid_cells(*old(grid)),
            grid_cols(*old(grid)) as int,
            rep_views(groups@),
        ),
{
    let ghost s = rep_views(groups@);
    let ghost data0 = grid_cells(*grid);
    let rows = row_count(grid);
    let cols = col_count(grid);
    let mut claimed: Vec<bool> = Vec::new();
    let total = rows * cols;
    let mut t: usize = 0;
    while t < total
        invariant
            t <= total,
            claimed@.len() == t,
            forall|u: int| 0 <= u < t ==> !claimed@[u],
        decreases total - t,
    {
        claimed.push(false);
        t += 1;
    }
    let n = groups.len();
    let mut gi: usize = 0;
    proof {
        assert forall|r: int, c: int| 0 <= r < rows && 0 <= c < cols implies #[trigger] claimed@[r
            * (cols as int) + c] == claimed_upto(s, 0).contains((r, c)) by {
            lemma_cell_index(rows as int, cols as int, r, c);
        }
    }
    while gi < n
        invariant
            grid_wf(*grid),
            rows == grid_rows(*grid),
            cols == grid_cols(*grid),
            s == rep_views(groups@),
            n == groups@.len(),
            gi <= n,
            total == rows * cols,
            groups_in_range(s, rows as int, cols as int),
            claimed@.len() == total,
            forall|r: int, c: int|
                0 <= r < rows && 0 <= c < cols ==> #[trigger] claimed@[r * (cols as int) + c]
                    == claimed_upto(s, gi as int).contains((r, c)),
            apply_from(grid_cells(*grid), cols as int, s, gi as int) == apply_groups(
                data0,
                cols as int,
                s,
            ),
        decreases n - gi,
    {
        let ghost claimed_set = claimed_upto(s, gi as int);
        let m = groups[gi].cells.len();
        proof {
            assert(rep_view(groups@[gi as int]) == s[gi as int]);
        }
        let mut ok = true;
        let mut k: usize = 0;
        while k < m
            invariant
                grid_wf(*grid),
                rows == grid_rows(*grid),
                cols == grid_cols(*grid),
                s == rep_views(groups@),
                n == groups@.len(),
                gi < n,
                total == rows * cols,
                groups_in_range(s, rows as int, cols as int),
                claimed@.len() == total,
                forall|r: int, c: int|
                    0 <= r < rows && 0 <= c < cols ==> #[trigger] claimed@[r * (cols as int) + c]
                        == claimed_set.contains((r, c)),
                claimed_set == claimed_upto(s, gi as int),
                m == s[gi as int].cells.len(),
                k <= m,
                ok == (forall|k2: int|
                    0 <= k2 < k ==> !claimed_set.contains(
                        (((#[trigger] s[gi as int].cells[k2]).row as int), (s[gi as int].cells[k2].col
                            as int)),
                    )),
            decreases m - k,
        {
            let cw = groups[gi].cells[k];
            proof {
                assert(cw == s[gi as int].cells[k as int]);
                assert((cw.row as int) < rows as int && (cw.col as int) < cols as int);
                lemma_cell_index(rows as int, cols as int, cw.row as int, cw.col as int);
            }
            if claimed[cw.row * cols + cw.col] {
                ok = false;
                proof {
                    assert(claimed_set.contains(((cw.row as int), (cw.col as int))));
                }
                k = m;
            } else {
                proof {
                    assert(!claimed_set.contains(((cw.row as int), (cw.col as int))));
                }
                k += 1;
            }
        }
        proof {
            if ok {
                assert(group_free(s[gi as int].cells, claimed_set));
                assert(approved(s, gi as int));
            } else {
                assert(!group_free(s[gi as int].cells, claimed_set));
                assert(!approved(s, gi as int));
            }
        }
        if ok {
            let ghost data_before = grid_cells(*grid);
            let ghost claimed_before = claimed@;
            let mut k2: usize = 0;
            while k2 < m
                invariant
                    grid_wf(*grid),
                    rows == grid_rows(*grid),
                    cols == grid_cols(*grid),
                    s == rep_views(groups@),
                    n == groups@.len(),
                    gi < n,
                    total == rows * cols,
                    groups_in_range(s, rows as int, cols as int),
                    m == s[gi as int].cells.len(),
                    k2 <= m,
                    claimed@.len() == total,
                    grid_cells(*grid) == write_seq(
                        data_before,
                        cols as int,
                        s[gi as int].cells.take(k2 as int),
                    ),
                    forall|r: int, c: int|
                        0 <= r < rows && 0 <= c < cols ==> #[trigger] claimed@[r * (cols as int)
                            + c] == (claimed_before[r * (cols as int) + c] || covers(
                            s[gi as int].cells.take(k2 as int),
                            r,
                            c,
                        )),
                decreases m - k2,
            {
                let cw = groups[gi].cells[k2];
                proof {
                    assert(cw == s[gi as int].cells[k2 as int]);
                    assert((cw.row as int) < rows as int && (cw.col as int) < cols as int);
                    lemma_cell_index(rows as int, cols as int, cw.row as int, cw.col as int);
                }
                let ghost cells_prefix = s[gi as int].cells.take(k2 as int);
                let ghost data_mid = grid_cells(*grid);
                let ghost claimed_mid = claimed@;
                grid_set(grid, cw.row, cw.col, cw.value);
                claimed.set(cw.row * cols + cw.col, true);
                proof {
                    let next_prefix = s[gi as int].cells.take(k2 as int + 1);
                    assert(next_prefix.drop_last() =~= cells_prefix);
                    assert(next_prefix.last() == cw);
                    assert(write_seq(data_before, cols as int, next_prefix) == write_seq(
                        data_before,
                        cols as int,
                        cells_prefix,
                    ).update((cw.row as int) * (cols as int) + (cw.col as int), cw.value));
                    assert(grid_cells(*grid) == data_mid.update(
                        (cw.row as int) * (cols as int) + (cw.col as int),
                        cw.value,
                    ));
                    assert forall|r: int, c: int| 0 <= r < rows && 0 <= c < cols implies #[trigger] claimed@[r
                        * (cols as int) + c] == (claimed_before[r * (cols as int) + c] || covers(
                        next_prefix,
                        r,
                        c,
                    )) by {
                        lemma_cell_index(rows as int, cols as int, r, c);
                        lemma_row_major_unique(rows as int, cols as int, r, c, cw.row as int,
                            cw.col as int);
                        if r == cw.row as int && c == cw.col as int {
                            assert(covers(next_prefix, r, c)) by {
                                assert(next_prefix[k2 as int] == cw);
                            }
                        } else {
                            assert(claimed@[r * (cols as int) + c] == claimed_mid[r * (cols as int)
                                + c]);
                            assert(covers(next_prefix, r, c) == covers(cells_prefix, r, c)) by {
                                if covers(next_prefix, r, c) {
                                    let w = choose|w: int|
                                        0 <= w < next_prefix.len() && (#[trigger] next_prefix[w]).row
                                            == r && next_prefix[w].col == c;
                                    assert(w < k2 as int);
                                    assert(cells_prefix[w] == next_prefix[w]);
                                    assert(covers(cells_prefix, r, c));
                                }
                                if covers(cells_prefix, r, c) {
                                    let w = choose|w: int|
                                        0 <= w < cells_prefix.len() && (#[trigger] cells_prefix[w]).row
                                            == r && cells_prefix[w].col == c;
                                    assert(next_prefix[w] == cells_prefix[w]);
                                    assert(covers(next_prefix, r, c));
                                }
                            }
                        }
                    }
                }
                k2 += 1;
            }
            proof {
                let cells_full = s[gi as int].cells;
                assert(cells_full.take(m as int) =~= cells_full);
                assert(grid_cells(*grid) == write_seq(data_before, cols as int, cells_full));
                assert(apply_from(data_before, cols as int, s, gi as int) == apply_from(
                    grid_cells(*grid),
                    cols as int,
                    s,
                    gi as int + 1,
                ));
                assert(claimed_upto(s, gi as int + 1) =~= claimed_set.union(
                    cells_set(cells_full),
                ));
                assert forall|r: int, c: int| 0 <= r < rows && 0 <= c < cols implies #[trigger] claimed@[r
                    * (cols as int) + c] == claimed_upto(s, gi as int + 1).contains((r, c)) by {
                    assert(claimed@[r * (cols as int) + c] == (claimed_before[r * (cols as int) + c]
                        || covers(cells_full.take(m as int), r, c)));
                }
            }
        } else {
            proof {
                assert(apply_from(grid_cells(*grid), cols as int, s, gi as int) == apply_from(
                    grid_cells(*grid),
                    cols as int,
                    s,
                    gi as int + 1,
                ));
                assert(claimed_upto(s, gi as int + 1) == claimed_upto(s, gi as int));
            }
        }
        gi += 1;
    }
}

/// Two distinct in-range cells have distinct flat indices.
pub proof fn lemma_row_major_unique(rows: int, cols: int, r1: int, c1: int, r2: int, c2: int)
    requires
        0 <= r1 < rows,
        0 <= c1 < cols,
        0 <= r2 < rows,
        0 <= c2 < cols,
    ensures
        (r1 * cols + c1 == r2 * cols + c2) <==> (r1 == r2 && c1 == c2),
{
    if r1 * cols + c1 == r2 * cols + c2 {
        lemma_fundamental_div_mod_converse(r1 * cols + c1, cols, r1, c1);
        lemma_fundamental_div_mod_converse(r2 * cols + c2, cols, r2, c2);
    }
}


/// Relies on rayon's parallel iterator: `par_iter` hands every pattern to
/// the verified matcher (possibly across worker threads) and `collect`
/// keeps the results in source order.
#[verifier::external_body]
fn scan_patterns(
    patterns: &Vec<Pattern>,
    grid: &CellGrid,
    rb: BoundaryBehaviour,
    cb: BoundaryBehaviour,
) -> (r: Vec<Vec<Replacement>>)
    requires
        forall|i: int| 0 <= i < patterns@.len() ==> pattern_wf(#[trigger] patterns@[i]),
        grid_wf(*grid),
    ensures
        r@.len() == patterns@.len(),
        forall|i: int|
            0 <= i < r@.len() ==> rep_views(r@[i]@) == pattern_groups(
                view_of(*grid),
                pattern_view(patterns@[i]),
                rb,
                cb,
            ),
{
    patterns.par_iter().map(|p| find_matches(p, grid, rb, cb)).collect()
}

/// Relies on rand's SliceRandom::shuffle: a permutation of the groups,
/// picked uniformly at random, in place.
#[verifier::external_body]
fn shuffle_groups(groups: &mut Vec<Replacement>)
    ensures
        final (groups)@.len() == old(groups)@.len(),
        rep_views(final (groups)@).to_multiset() == rep_views(old(groups)@).to_multiset(),
{
    groups.shuffle(&mut rand::rng());
}

/// Keeps each group with the probability given by its chance: a group of a
/// pattern with full chance is always kept, and every kept group is one of
/// the found groups.
fn chance_filter(groups: Vec<Replacement>) -> (kept: Vec<Replacement>)
    ensures
        rep_views(kept@).to_multiset().subset_of(rep_views(groups@).to_multiset()),
        (forall|i: int|
            0 <= i < groups@.len() ==> (#[trigger] rep_views(groups@)[i]).chance
                >= CHANCE_SCALE as int) ==> rep_views(kept@) == rep_views(groups@),
{
    let ghost orig = groups@;
    let mut src = groups;
    let mut kept: Vec<Replacement> = Vec::new();
    let ghost done: Seq<Replacement> = Seq::empty();
    proof {
        assert(orig =~= done + src@);
        assert(rep_views(done) =~= Seq::<RepView>::empty());
    }
    while src.len() > 0
        invariant
            orig == done + src@,
            rep_views(kept@).to_multiset().subset_of(rep_views(done).to_multiset()),
            (forall|i: int|
                0 <= i < done.len() ==> (#[trigger] rep_views(done)[i]).chance
                    >= CHANCE_SCALE as int) ==> rep_views(kept@) == rep_views(done),
        decreases src@.len(),
    {
        let ghost done_old = done;
        let ghost kept_old = kept@;
        let g = src.remove(0);
        let keep = if g.chance >= CHANCE_SCALE {
            true
        } else {
            let draw: u32 = rand::random();
            draw % CHANCE_SCALE < g.chance
        };
        proof {
            done = done_old.push(g);
        }
        if keep {
            kept.push(g);
        }
        proof {
            broadcast use vstd::seq_lib::group_to_multiset_ensures;

            assert(orig =~= done + src@);
            assert(rep_views(done) =~= rep_views(done_old).push(rep_view(g)));
            assert(rep_views(done).to_multiset() == rep_views(done_old).to_multiset().insert(
                rep_view(g),
            ));
            if keep {
                assert(rep_views(kept@) =~= rep_views(kept_old).push(rep_view(g)));
                assert(rep_views(kept@).to_multiset() == rep_views(kept_old).to_multiset().insert(
                    rep_view(g),
                ));
                assert forall|x: RepView|
                    rep_views(kept@).to_multiset().count(x) <= rep_views(
                        done,
                    ).to_multiset().count(x) by {
                    assert(rep_views(kept_old).to_multiset().count(x) <= rep_views(
                        done_old,
                    ).to_multiset().count(x));
                }
                if (forall|i: int|
                    0 <= i < done.len() ==> (#[trigger] rep_views(done)[i]).chance
                        >= CHANCE_SCALE as int) {
                    assert forall|i: int|
                        0 <= i < done_old.len() implies (#[trigger] rep_views(done_old)[i]).chance
                        >= CHANCE_SCALE as int by {
                        assert(done[i] == done_old[i]);
                        assert(rep_views(done)[i].chance >= CHANCE_SCALE as int);
                        assert(rep_views(done)[i] == rep_views(done_old)[i]);
                    }
                    assert(rep_views(kept@) =~= rep_views(done));
                }
            } else {
                assert(rep_view(g).chance < CHANCE_SCALE as int);
                assert(rep_views(done)[done.len() - 1] == rep_view(g));
                assert forall|x: RepView|
                    rep_views(kept@).to_multiset().count(x) <= rep_views(
                        done,
                    ).to_multiset().count(x) by {
                    assert(rep_views(kept@).to_multiset().count(x) <= rep_views(
                        done_old,
                    ).to_multiset().count(x));
                }
            }
        }
    }
    proof {
        assert(done =~= orig);
    }
    kept
}

/// Orders the groups by non-increasing priority with a stable selection
/// pass: among equal priorities the earlier group stays first, so the
/// random shuffle before sorting decides ties.
fn sort_by_priority(groups: Vec<Replacement>) -> (sorted: Vec<Replacement>)
    ensures
        rep_views(sorted@).to_multiset() == rep_views(groups@).to_multiset(),
        sorted_desc(rep_views(sorted@)),
{
    let ghost orig_ms = rep_views(groups@).to_multiset();
    let mut src = groups;
    let mut out: Vec<Replacement> = Vec::new();
    proof {
        broadcast use vstd::seq_lib::group_to_multiset_ensures;

        assert(rep_views(out@) =~= Seq::<RepView>::empty());
        assert(rep_views(out@).to_multiset().add(rep_views(src@).to_multiset()) =~= orig_ms);
    }
    while src.len() > 0
        invariant
            rep_views(out@).to_multiset().add(rep_views(src@).to_multiset()) == orig_ms,
            sorted_desc(rep_views(out@)),
            forall|i: int, j: int|
                0 <= i < out@.len() && 0 <= j < src@.len() ==> (#[trigger] rep_views(out@)[i]).priority
                    >= (#[trigger] rep_views(src@)[j]).priority,
        decreases src@.len(),
    {
        let mut best: usize = 0;
        let mut bi: usize = 1;
        while bi < src.len()
            invariant
                src@.len() > 0,
                best < bi,
                bi <= src@.len(),
                forall|t: int|
                    0 <= t < bi ==> rep_views(src@)[best as int].priority >= (#[trigger] rep_views(
                        src@,
                    )[t]).priority,
            decreases src@.len() - bi,
        {
            if src[bi].priority > src[best].priority {
                best = bi;
            }
            bi += 1;
        }
        let ghost src_old = src@;
        let ghost out_old = out@;
        let g = src.remove(best);
        out.push(g);
        proof {
            broadcast use vstd::seq_lib::group_to_multiset_ensures;

            assert(g == src_old[best as int]);
            assert(rep_views(src@) =~= rep_views(src_old).remove(best as int));
            assert(rep_views(src_old).to_multiset() == rep_views(src@).to_multiset().insert(
                rep_view(g),
            )) by {
                assert(rep_views(src_old).remove(best as int).to_multiset() == rep_views(
                    src_old,
                ).to_multiset().remove(rep_views(src_old)[best as int]));
                assert(rep_views(src_old).to_multiset().count(rep_view(g)) > 0) by {
                    assert(rep_views(src_old)[best as int] == rep_view(g));
                    assert(rep_views(src_old).contains(rep_view(g)));
                }
                assert(rep_views(src@).to_multiset().insert(rep_view(g)) =~= rep_views(
                    src_old,
                ).to_multiset().remove(rep_view(g)).insert(rep_view(g)));
                assert(rep_views(src_old).to_multiset().remove(rep_view(g)).insert(rep_view(g))
                    =~= rep_views(src_old).to_multiset());
            }
            assert(rep_views(out@) =~= rep_views(out_old).push(rep_view(g)));
            assert(rep_views(out@).to_multiset() == rep_views(out_old).to_multiset().insert(
                rep_view(g),
            ));
            assert(rep_views(out@).to_multiset().add(rep_views(src@).to_multiset()) =~= orig_ms);
            assert(sorted_desc(rep_views(out@))) by {
                assert(forall|i: int|
                    0 <= i < out_old.len() ==> rep_views(out@)[i] == #[trigger] rep_views(
                        out_old,
                    )[i]);
                assert(rep_views(out@)[out_old.len() as int] == rep_view(g));
            }
            assert forall|i: int, j: int|
                0 <= i < out@.len() && 0 <= j < src@.len() implies (#[trigger] rep_views(
                out@,
            )[i]).priority >= (#[trigger] rep_views(src@)[j]).priority by {
                assert(rep_views(src@)[j] == if j < best as int {
                    rep_views(src_old)[j]
                } else {
                    rep_views(src_old)[j + 1]
                });
                assert(rep_view(g).priority >= rep_views(src@)[j].priority);
                if i < out_old.len() {
                    assert(rep_views(out@)[i] == rep_views(out_old)[i]);
                }
            }
        }
    }
    proof {
        broadcast use vstd::seq_lib::group_to_multiset_ensures;

        assert(rep_views(src@) =~= Seq::<RepView>::empty());
        assert(rep_views(out@).to_multiset().add(Seq::<RepView>::empty().to_multiset())
            =~= rep_views(out@).to_multiset());
    }
    out
}


/// A pattern rule works by looping over the current state and replacing
/// every occurrence of one or more patterns with their replacements, under
/// random chance and priority-ordered conflict resolution.
pub struct PatternRule {
    /// The replacement patterns of this rule.
    pub patterns: Vec<Pattern>,
    /// How the rule treats pattern windows that overlap rows out of bounds
    /// of the state grid.
    pub row_boundary: BoundaryBehaviour,
    /// How the rule treats pattern windows that overlap columns out of
    /// bounds of the state grid.
    pub col_boundary: BoundaryBehaviour,
}

impl PatternRule {
    /// Every pattern of the rule is well-formed.
    pub open spec fn patterns_wf(&self) -> bool {
        forall|i: int| 0 <= i < self.patterns@.len() ==> pattern_wf(#[trigger] self.patterns@[i])
    }

    /// Create a new (empty) pattern rule with the default border symbol as
    /// boundary on both axes.
    pub fn new_empty() -> (r: Self)
        ensures
            r.patterns@.len() == 0,
            r.row_boundary == BoundaryBehaviour::Symbol(crate::BORDER),
            r.col_boundary == BoundaryBehaviour::Symbol(crate::BORDER),
            r.patterns_wf(),
    {
        PatternRule {
            patterns: Vec::new(),
            row_boundary: BoundaryBehaviour::Symbol(crate::BORDER),
            col_boundary: BoundaryBehaviour::Symbol(crate::BORDER),
        }
    }

    /// Create a new pattern rule from a set of patterns and boundary
    /// policies; the patterns are copied in order.
    pub fn from_patterns(
        rules: &Vec<Pattern>,
        row_boundary: BoundaryBehaviour,
        col_boundary: BoundaryBehaviour,
    ) -> (r: Self)
        ensures
            pattern_views(r.patterns@) == pattern_views(rules@),
            r.row_boundary == row_boundary,
            r.col_boundary == col_boundary,
            (forall|i: int| 0 <= i < rules@.len() ==> pattern_wf(#[trigger] rules@[i]))
                ==> r.patterns_wf(),
    {
        let mut patterns: Vec<Pattern> = Vec::new();
        let n = rules.len();
        let mut i: usize = 0;
        while i < n
            invariant
                n == rules@.len(),
                i <= n,
                patterns@.len() == i,
                forall|t: int|
                    0 <= t < i ==> pattern_view(#[trigger] patterns@[t]) == pattern_view(
                        rules@[t],
                    ),
                forall|t: int|
                    0 <= t < i ==> pattern_wf(rules@[t]) ==> pattern_wf(#[trigger] patterns@[t]),
            decreases n - i,
        {
            patterns.push(rules[i].clone());
            i += 1;
        }
        proof {
            assert(pattern_views(patterns@) =~= pattern_views(rules@));
        }
        PatternRule { patterns, row_boundary, col_boundary }
    }
}

/// Every group a pattern produces carries that pattern's priority and
/// chance.
proof fn lemma_groups_from_fields(
    g: GridView,
    p: PatternView,
    rb: BoundaryBehaviour,
    cb: BoundaryBehaviour,
    k: int,
)
    ensures
        forall|t: int|
            0 <= t < groups_from(g, p, rb, cb, k).len() ==> (#[trigger] groups_from(
                g,
                p,
                rb,
                cb,
                k,
            )[t]).chance == p.chance && groups_from(g, p, rb, cb, k)[t].priority == p.priority,
    decreases anchor_rows(g, p, rb) * anchor_cols(g, p, cb) - k,
{
    let total = anchor_rows(g, p, rb) * anchor_cols(g, p, cb);
    if 0 <= k < total {
        lemma_groups_from_fields(g, p, rb, cb, k + 1);
        let rest = groups_from(g, p, rb, cb, k + 1);
        let whole = groups_from(g, p, rb, cb, k);
        let ar = k / anchor_cols(g, p, cb);
        let ac = k % anchor_cols(g, p, cb);
        assert forall|t: int|
            0 <= t < whole.len() implies (#[trigger] whole[t]).chance == p.chance
            && whole[t].priority == p.priority by {
            if matches_at(g, p.before, ar, ac) {
                if t > 0 {
                    assert(whole[t] == rest[t - 1]);
                }
            } else {
                assert(whole[t] == rest[t]);
            }
        }
    }
}

/// If every pattern of the rule has full chance, every group found for the
/// rule has full chance.
proof fn lemma_rule_groups_chance(
    g: GridView,
    ps: Seq<PatternView>,
    rb: BoundaryBehaviour,
    cb: BoundaryBehaviour,
    k: int,
    bound: int,
)
    requires
        forall|i: int| 0 <= i < ps.len() ==> (#[trigger] ps[i]).chance >= bound,
    ensures
        forall|t: int|
            0 <= t < rule_groups_from(g, ps, rb, cb, k).len() ==> (#[trigger] rule_groups_from(
                g,
                ps,
                rb,
                cb,
                k,
            )[t]).chance >= bound,
    decreases ps.len() - k,
{
    if 0 <= k < ps.len() {
        lemma_groups_from_fields(g, ps[k], rb, cb, 0);
        lemma_rule_groups_chance(g, ps, rb, cb, k + 1, bound);
        let head = pattern_groups(g, ps[k], rb, cb);
        let rest = rule_groups_from(g, ps, rb, cb, k + 1);
        let whole = rule_groups_from(g, ps, rb, cb, k);
        assert forall|t: int| 0 <= t < whole.len() implies (#[trigger] whole[t]).chance
            >= bound by {
            if t < head.len() {
                assert(whole[t] == head[t]);
            } else {
                assert(whole[t] == rest[t - head.len()]);
            }
        }
    }
}

/// Every write of every group a pattern produces lands inside the grid.
proof fn lemma_group_cells_in_range(g: GridView, after: GridView, ar: int, ac: int, k: int)
    requires
        1 <= g.rows,
        1 <= g.cols,
        0 <= ar,
        0 <= ac,
        0 <= after.rows,
        0 <= after.cols,
    ensures
        writes_in_range(group_cells_from(g, after, ar, ac, k), g.rows, g.cols),
    decreases after.rows * after.cols - k,
{
    let total = after.rows * after.cols;
    if 0 <= k < total {
        lemma_group_cells_in_range(g, after, ar, ac, k + 1);
        assert(0 < after.cols) by (nonlinear_arith)
            requires
                0 <= k < after.rows * after.cols,
                0 <= after.cols,
        ;
        let i = k / after.cols;
        let j = k % after.cols;
        vstd::arithmetic::div_mod::lemma_div_pos_is_pos(k, after.cols);
        vstd::arithmetic::div_mod::lemma_mod_bound(k, after.cols);
        vstd::arithmetic::div_mod::lemma_mod_bound(ar + i, g.rows);
        vstd::arithmetic::div_mod::lemma_mod_bound(ac + j, g.cols);
        let rest = group_cells_from(g, after, ar, ac, k + 1);
        let whole = group_cells_from(g, after, ar, ac, k);
        assert forall|t: int|
            0 <= t < whole.len() implies ((#[trigger] whole[t]).row as int) < g.rows && (
            whole[t].col as int) < g.cols by {
            if after.cell(i, j) == WILDCARD {
                assert(whole[t] == rest[t]);
            } else {
                if t > 0 {
                    assert(whole[t] == rest[t - 1]);
                }
            }
        }
    }
}

/// All groups of a pattern write inside the grid.
proof fn lemma_pattern_groups_in_range(
    g: GridView,
    p: PatternView,
    rb: BoundaryBehaviour,
    cb: BoundaryBehaviour,
    k: int,
)
    requires
        1 <= p.before.rows,
        1 <= p.before.cols,
        1 <= p.after.rows,
        1 <= p.after.cols,
        0 <= g.rows,
        0 <= g.cols,
    ensures
        groups_in_range(groups_from(g, p, rb, cb, k), g.rows, g.cols),
    decreases anchor_rows(g, p, rb) * anchor_cols(g, p, cb) - k,
{
    let total = anchor_rows(g, p, rb) * anchor_cols(g, p, cb);
    if 0 <= k < total {
        lemma_pattern_groups_in_range(g, p, rb, cb, k + 1);
        let rest = groups_from(g, p, rb, cb, k + 1);
        let ar = k / anchor_cols(g, p, cb);
        let ac = k % anchor_cols(g, p, cb);
        assert(0 <= anchor_rows(g, p, rb));
        assert(0 <= anchor_cols(g, p, cb));
        assert(1 <= anchor_rows(g, p, rb) && 1 <= anchor_cols(g, p, cb)) by (nonlinear_arith)
            requires
                0 <= k < anchor_rows(g, p, rb) * anchor_cols(g, p, cb),
                0 <= anchor_rows(g, p, rb),
                0 <= anchor_cols(g, p, cb),
        ;
        assert(1 <= g.rows && 1 <= g.cols);
        vstd::arithmetic::div_mod::lemma_mod_bound(k, anchor_cols(g, p, cb));
        assert(0 <= ar) by (nonlinear_arith)
            requires
                0 <= k,
                ar == k / anchor_cols(g, p, cb),
                1 <= anchor_cols(g, p, cb),
        ;
        if matches_at(g, p.before, ar, ac) {
            lemma_group_cells_in_range(g, p.after, ar, ac, 0);
            assert forall|i: int, kk: int|
                0 <= i < groups_from(g, p, rb, cb, k).len() && 0 <= kk < groups_from(
                    g,
                    p,
                    rb,
                    cb,
                    k,
                )[i].cells.len() implies ((#[trigger] groups_from(g, p, rb, cb, k)[i].cells[kk]).row
                as int) < g.rows && (groups_from(g, p, rb, cb, k)[i].cells[kk].col as int)
                < g.cols by {
                if i == 0 {
                    assert(groups_from(g, p, rb, cb, k)[0].cells == group_cells(
                        g,
                        p.after,
                        ar,
                        ac,
                    ));
                } else {
                    assert(groups_from(g, p, rb, cb, k)[i] == rest[i - 1]);
                }
            }
        } else {
            assert(groups_from(g, p, rb, cb, k) =~= rest);
        }
    }
}

/// All groups of a rule write inside the grid.
proof fn lemma_rule_groups_in_range(
    g: GridView,
    ps: Seq<PatternView>,
    rb: BoundaryBehaviour,
    cb: BoundaryBehaviour,
    k: int,
)
    requires
        forall|i: int|
            0 <= i < ps.len() ==> 1 <= (#[trigger] ps[i]).before.rows && 1 <= ps[i].before.cols
                && 1 <= ps[i].after.rows && 1 <= ps[i].after.cols,
        0 <= g.rows,
        0 <= g.cols,
    ensures
        groups_in_range(rule_groups_from(g, ps, rb, cb, k), g.rows, g.cols),
    decreases ps.len() - k,
{
    if 0 <= k < ps.len() {
        lemma_rule_groups_in_range(g, ps, rb, cb, k + 1);
        lemma_pattern_groups_in_range(g, ps[k], rb, cb, 0);
        let head = pattern_groups(g, ps[k], rb, cb);
        let rest = rule_groups_from(g, ps, rb, cb, k + 1);
        assert forall|i: int, kk: int|
            0 <= i < rule_groups_from(g, ps, rb, cb, k).len() && 0 <= kk < rule_groups_from(
                g,
                ps,
                rb,
                cb,
                k,
            )[i].cells.len() implies ((#[trigger] rule_groups_from(g, ps, rb, cb, k)[i].cells[kk]).row
            as int) < g.rows && (rule_groups_from(g, ps, rb, cb, k)[i].cells[kk].col as int)
            < g.cols by {
            if i < head.len() {
                assert(rule_groups_from(g, ps, rb, cb, k)[i] == head[i]);
            } else {
                assert(rule_groups_from(g, ps, rb, cb, k)[i] == rest[i - head.len()]);
            }
        }
    }
}

/// Membership in a sub-multiset transfers element-wise properties: every
/// group of `s` occurs in `orig`, so in-range writes carry over.
pub proof fn lemma_in_range_transfer(s: Seq<RepView>, orig: Seq<RepView>, rows: int, cols: int)
    requires
        s.to_multiset().subset_of(orig.to_multiset()),
        groups_in_range(orig, rows, cols),
    ensures
        groups_in_range(s, rows, cols),
{
    broadcast use vstd::seq_lib::group_to_multiset_ensures;

    assert forall|i: int, k: int|
        0 <= i < s.len() && 0 <= k < s[i].cells.len() implies ((#[trigger] s[i].cells[k]).row
        as int) < rows && (s[i].cells[k].col as int) < cols by {
        assert(s.contains(s[i]));
        assert(s.to_multiset().count(s[i]) > 0);
        assert(orig.to_multiset().count(s[i]) > 0);
        assert(orig.contains(s[i]));
        let j = choose|j: int| 0 <= j < orig.len() && orig[j] == s[i];
        assert(((orig[j].cells[k]).row as int) < rows && (orig[j].cells[k].col as int) < cols);
    }
}

impl Rule for PatternRule {
    open spec fn rule_wf(&self) -> bool {
        self.patterns_wf()
    }

    open spec fn compatible(&self, rows: int, cols: int) -> bool {
        true
    }

    open spec fn step_ok(&self, pre: GridView, post: GridView) -> bool {
        &&& post.rows == pre.rows
        &&& post.cols == pre.cols
        &&& (exists|applied: Seq<RepView>|
            {
                &&& applied.to_multiset().subset_of(
                    rule_groups(
                        pre,
                        pattern_views(self.patterns@),
                        self.row_boundary,
                        self.col_boundary,
                    ).to_multiset(),
                )
                &&& sorted_desc(applied)
                &&& ((forall|i: int|
                    0 <= i < self.patterns@.len() ==> (#[trigger] self.patterns@[i]).chance as int
                        >= CHANCE_SCALE as int) ==> applied.to_multiset() == rule_groups(
                    pre,
                    pattern_views(self.patterns@),
                    self.row_boundary,
                    self.col_boundary,
                ).to_multiset())
                &&& #[trigger] apply_groups(pre.cells, pre.cols, applied) == post.cells
            })
    }

    /// One step of the rule: all matches of all patterns are found against
    /// the unmodified grid, thinned by chance, shuffled, ordered by
    /// non-increasing priority and applied under the claim walk. Whatever
    /// the random choices were, the new grid is the claim-walk result of
    /// some priority-ordered selection of the found groups, and when every
    /// pattern has full chance the selection contains exactly the found
    /// groups — that is what the rule's step relation states.
    fn transform(&self, grid: &mut CellGrid) {
        let ghost g0 = view_of(*grid);
        let ghost pvs = pattern_views(self.patterns@);
        let ghost all_spec = rule_groups(g0, pvs, self.row_boundary, self.col_boundary);
        let nested = scan_patterns(&self.patterns, grid, self.row_boundary, self.col_boundary);
        let mut rest = nested;
        let mut all: Vec<Replacement> = Vec::new();
        let ghost consumed: int = 0;
        proof {
            assert(rep_views(all@) =~= Seq::<RepView>::empty());
            assert(all_spec =~= rep_views(all@) + rule_groups_from(
                g0,
                pvs,
                self.row_boundary,
                self.col_boundary,
                0,
            ));
            assert(forall|i: int|
                0 <= i < rest@.len() ==> rep_views(#[trigger] rest@[i]@) == pattern_groups(
                    g0,
                    pvs[consumed + i],
                    self.row_boundary,
                    self.col_boundary,
                ));
        }
        while rest.len() > 0
            invariant
                0 <= consumed,
                consumed + rest@.len() == pvs.len(),
                pvs.len() == self.patterns@.len(),
                pvs == pattern_views(self.patterns@),
                all_spec == rule_groups(g0, pvs, self.row_boundary, self.col_boundary),
                forall|i: int|
                    0 <= i < rest@.len() ==> rep_views(#[trigger] rest@[i]@) == pattern_groups(
                        g0,
                        pvs[consumed + i],
                        self.row_boundary,
                        self.col_boundary,
                    ),
                all_spec == rep_views(all@) + rule_groups_from(
                    g0,
                    pvs,
                    self.row_boundary,
                    self.col_boundary,
                    consumed,
                ),
            decreases rest@.len(),
        {
            let ghost all_old = all@;
            let ghost rest_old = rest@;
            let mut head = rest.remove(0);
            let ghost head_seq = head@;
            all.append(&mut head);
            proof {
                assert(rep_views(head_seq) == pattern_groups(
                    g0,
                    pvs[consumed],
                    self.row_boundary,
                    self.col_boundary,
                ));
                assert(rule_groups_from(g0, pvs, self.row_boundary, self.col_boundary, consumed)
                    == pattern_groups(g0, pvs[consumed], self.row_boundary, self.col_boundary)
                    + rule_groups_from(
                    g0,
                    pvs,
                    self.row_boundary,
                    self.col_boundary,
                    consumed + 1,
                ));
                assert(rep_views(all@) =~= rep_views(all_old) + rep_views(head_seq));
                assert((rep_views(all_old) + rep_views(head_seq)) + rule_groups_from(
                    g0,
                    pvs,
                    self.row_boundary,
                    self.col_boundary,
                    consumed + 1,
                ) =~= rep_views(all_old) + (rep_views(head_seq) + rule_groups_from(
                    g0,
                    pvs,
                    self.row_boundary,
                    self.col_boundary,
                    consumed + 1,
                )));
                consumed = consumed + 1;
                assert(forall|i: int|
                    0 <= i < rest@.len() ==> rest@[i] == #[trigger] rest_old[i + 1]);
            }
        }
        proof {
            assert(rule_groups_from(g0, pvs, self.row_boundary, self.col_boundary, consumed)
                =~= Seq::<RepView>::empty());
            assert(rep_views(all@) + Seq::<RepView>::empty() =~= rep_views(all@));
            assert(rep_views(all@) == all_spec);
        }
        let ghost all_views = rep_views(all@);
        proof {
            assert forall|i: int|
                0 <= i < pvs.len() implies 1 <= (#[trigger] pvs[i]).before.rows && 1
                <= pvs[i].before.cols && 1 <= pvs[i].after.rows && 1 <= pvs[i].after.cols by {
                assert(pattern_wf(self.patterns@[i]));
                assert(pvs[i] == pattern_view(self.patterns@[i]));
            }
            lemma_rule_groups_in_range(g0, pvs, self.row_boundary, self.col_boundary, 0);
        }
        let mut kept = chance_filter(all);
        let ghost filtered = rep_views(kept@);
        shuffle_groups(&mut kept);
        let sorted = sort_by_priority(kept);
        proof {
            assert(rep_views(sorted@).to_multiset() == filtered.to_multiset());
            assert(rep_views(sorted@).to_multiset().subset_of(all_spec.to_multiset()));
            lemma_in_range_transfer(
                rep_views(sorted@),
                all_spec,
                grid_rows(*grid) as int,
                grid_cols(*grid) as int,
            );
        }
        apply_replacements(grid, &sorted);
        proof {
            let applied = rep_views(sorted@);
            assert(applied.to_multiset().subset_of(all_spec.to_multiset()));
            assert(sorted_desc(applied));
            assert(apply_groups(g0.cells, g0.cols, applied) == grid_cells(*grid));
            if forall|i: int|
                0 <= i < self.patterns@.len() ==> (#[trigger] self.patterns@[i]).chance as int
                    >= CHANCE_SCALE as int {
                assert forall|t: int|
                    0 <= t < pvs.len() implies (#[trigger] pvs[t]).chance >= CHANCE_SCALE as int by {
                    assert(pvs[t] == pattern_view(self.patterns@[t]));
                }
                lemma_rule_groups_chance(
                    g0,
                    pvs,
                    self.row_boundary,
                    self.col_boundary,
                    0,
                    CHANCE_SCALE as int,
                );
                assert forall|i: int|
                    0 <= i < all_views.len() implies (#[trigger] all_views[i]).chance
                    >= CHANCE_SCALE as int by {
                    assert(all_views[i] == all_spec[i]);
                }
                assert(filtered == all_views);
                assert(applied.to_multiset() == all_spec.to_multiset());
            }
            assert(self.step_ok(g0, view_of(*grid)));
        }
    }
}


/// Cells claimed earlier in the walk stay claimed later.
pub proof fn lemma_claimed_monotone(s: Seq<RepView>, a: int, b: int, r: int, c: int)
    requires
        0 <= a <= b,
        claimed_upto(s, a).contains((r, c)),
    ensures
        claimed_upto(s, b).contains((r, c)),
    decreases b - a,
{
    if a < b {
        lemma_claimed_monotone(s, a, b - 1, r, c);
        assert(claimed_upto(s, b - 1).contains((r, c)));
        assert(claimed_upto(s, b).contains((r, c))) by {
            if group_free(s[b - 1].cells, claimed_upto(s, b - 1)) {
                assert(claimed_upto(s, b) == claimed_upto(s, b - 1).union(
                    cells_set(s[b - 1].cells),
                ));
            }
        }
    }
}

/// Conflict exclusivity: however the groups were ordered, no grid cell is
/// written by more than one approved replacement group — the claim walk
/// approves a group only if all of its target cells are still unclaimed.
pub proof fn lemma_conflict_exclusivity(s: Seq<RepView>, i: int, j: int, r: int, c: int)
    requires
        0 <= i < j < s.len(),
        approved(s, i),
        approved(s, j),
    ensures
        !(covers(s[i].cells, r, c) && covers(s[j].cells, r, c)),
{
    if covers(s[i].cells, r, c) && covers(s[j].cells, r, c) {
        assert(claimed_upto(s, i + 1).contains((r, c))) by {
            assert(group_free(s[i].cells, claimed_upto(s, i)));
            assert(claimed_upto(s, i + 1) == claimed_upto(s, i).union(cells_set(s[i].cells)));
            assert(cells_set(s[i].cells).contains((r, c)));
        }
        lemma_claimed_monotone(s, i + 1, j, r, c);
        let k = choose|k: int|
            0 <= k < s[j].cells.len() && (#[trigger] s[j].cells[k]).row == r && s[j].cells[k].col
                == c;
        assert(!claimed_upto(s, j).contains(
            (((s[j].cells[k]).row as int), (s[j].cells[k].col as int)),
        ));
        assert(false);
    }
}

/// Applying groups that write nothing leaves the contents unchanged.
proof fn lemma_apply_empty_from(data: Seq<u8>, cols: int, s: Seq<RepView>, k: int)
    requires
        forall|i: int| 0 <= i < s.len() ==> (#[trigger] s[i]).cells.len() == 0,
    ensures
        apply_from(data, cols, s, k) == data,
    decreases s.len() - k,
{
    if 0 <= k < s.len() {
        lemma_apply_empty_from(data, cols, s, k + 1);
    }
}

/// All-wildcard `after` templates yield groups without writes.
proof fn lemma_wildcard_group_cells(g: GridView, after: GridView, ar: int, ac: int, k: int)
    requires
        after.wf(),
        forall|t: int| 0 <= t < after.cells.len() ==> (#[trigger] after.cells[t]) == WILDCARD,
    ensures
        group_cells_from(g, after, ar, ac, k).len() == 0,
    decreases after.rows * after.cols - k,
{
    if 0 <= k < after.rows * after.cols {
        lemma_wildcard_group_cells(g, after, ar, ac, k + 1);
        assert(0 < after.cols) by (nonlinear_arith)
            requires
                0 <= k < after.rows * after.cols,
                0 <= after.cols,
        ;
        let i = k / after.cols;
        let j = k % after.cols;
        vstd::arithmetic::div_mod::lemma_div_pos_is_pos(k, after.cols);
        vstd::arithmetic::div_mod::lemma_mod_bound(k, after.cols);
        vstd::arithmetic::div_mod::lemma_fundamental_div_mod(k, after.cols);
        assert(i < after.rows) by (nonlinear_arith)
            requires
                0 <= k < after.rows * after.cols,
                0 < after.cols,
                i == k / after.cols,
                j == k % after.cols,
                0 <= j < after.cols,
                k == after.cols * i + j,
        ;
        lemma_cell_index(after.rows, after.cols, i, j);
        assert(after.cell(i, j) == after.cells[i * after.cols + j]);
        assert(i * after.cols + j == k) by (nonlinear_arith)
            requires
                i == k / after.cols,
                j == k % after.cols,
                0 < after.cols,
                k == after.cols * i + j,
        ;
        assert(after.cell(i, j) == WILDCARD);
    }
}

/// The groups of a pattern whose `after` template is all wildcards have no
/// writes.
proof fn lemma_wildcard_pattern_groups(
    g: GridView,
    p: PatternView,
    rb: BoundaryBehaviour,
    cb: BoundaryBehaviour,
    k: int,
)
    requires
        p.after.wf(),
        forall|t: int| 0 <= t < p.after.cells.len() ==> (#[trigger] p.after.cells[t]) == WILDCARD,
    ensures
        forall|t: int|
            0 <= t < groups_from(g, p, rb, cb, k).len() ==> (#[trigger] groups_from(
                g,
                p,
                rb,
                cb,
                k,
            )[t]).cells.len() == 0,
    decreases anchor_rows(g, p, rb) * anchor_cols(g, p, cb) - k,
{
    let total = anchor_rows(g, p, rb) * anchor_cols(g, p, cb);
    if 0 <= k < total {
        lemma_wildcard_pattern_groups(g, p, rb, cb, k + 1);
        let ar = k / anchor_cols(g, p, cb);
        let ac = k % anchor_cols(g, p, cb);
        lemma_wildcard_group_cells(g, p.after, ar, ac, 0);
        let rest = groups_from(g, p, rb, cb, k + 1);
        let whole = groups_from(g, p, rb, cb, k);
        assert forall|t: int| 0 <= t < whole.len() implies (#[trigger] whole[t]).cells.len()
            == 0 by {
            if matches_at(g, p.before, ar, ac) {
                if t > 0 {
                    assert(whole[t] == rest[t - 1]);
                }
            } else {
                assert(whole[t] == rest[t]);
            }
        }
    }
}

/// Every pattern's `after` template being all wildcards makes every found
/// group write-free.
proof fn lemma_wildcard_rule_groups(
    g: GridView,
    ps: Seq<PatternView>,
    rb: BoundaryBehaviour,
    cb: BoundaryBehaviour,
    k: int,
)
    requires
        forall|i: int|
            0 <= i < ps.len() ==> (#[trigger] ps[i]).after.wf() && (forall|t: int|
                0 <= t < ps[i].after.cells.len() ==> (#[trigger] ps[i].after.cells[t]) == WILDCARD),
    ensures
        forall|t: int|
            0 <= t < rule_groups_from(g, ps, rb, cb, k).len() ==> (#[trigger] rule_groups_from(
                g,
                ps,
                rb,
                cb,
                k,
            )[t]).cells.len() == 0,
    decreases ps.len() - k,
{
    if 0 <= k < ps.len() {
        lemma_wildcard_rule_groups(g, ps, rb, cb, k + 1);
        lemma_wildcard_pattern_groups(g, ps[k], rb, cb, 0);
        let head = pattern_groups(g, ps[k], rb, cb);
        let rest = rule_groups_from(g, ps, rb, cb, k + 1);
        let whole = rule_groups_from(g, ps, rb, cb, k);
        assert forall|t: int| 0 <= t < whole.len() implies (#[trigger] whole[t]).cells.len()
            == 0 by {
            if t < head.len() {
                assert(whole[t] == head[t]);
            } else {
                assert(whole[t] == rest[t - head.len()]);
            }
        }
    }
}

/// Wildcard no-op: a rule whose patterns' `after` templates consist only of
/// wildcards never changes the grid, however often its patterns match and
/// whatever selection of its groups the random choices produced.
pub proof fn lemma_wildcard_rule_noop(
    data: Seq<u8>,
    cols: int,
    g: GridView,
    ps: Seq<PatternView>,
    rb: BoundaryBehaviour,
    cb: BoundaryBehaviour,
    applied: Seq<RepView>,
)
    requires
        forall|i: int|
            0 <= i < ps.len() ==> (#[trigger] ps[i]).after.wf() && (forall|t: int|
                0 <= t < ps[i].after.cells.len() ==> (#[trigger] ps[i].after.cells[t]) == WILDCARD),
        applied.to_multiset().subset_of(rule_groups(g, ps, rb, cb).to_multiset()),
    ensures
        apply_groups(data, cols, applied) == data,
{
    broadcast use vstd::seq_lib::group_to_multiset_ensures;

    lemma_wildcard_rule_groups(g, ps, rb, cb, 0);
    let all = rule_groups(g, ps, rb, cb);
    assert forall|i: int| 0 <= i < applied.len() implies (#[trigger] applied[i]).cells.len()
        == 0 by {
        assert(applied.contains(applied[i]));
        assert(applied.to_multiset().count(applied[i]) > 0);
        assert(all.to_multiset().count(applied[i]) > 0);
        assert(all.contains(applied[i]));
        let j = choose|j: int| 0 <= j < all.len() && all[j] == applied[i];
        assert(all[j].cells.len() == 0);
    }
    lemma_apply_empty_from(data, cols, applied, 0);
}


/// Builds one well-formed pattern from row-major template cells.
fn sand_pattern(chance: u32, priority: i64, b: Vec<u8>, a: Vec<u8>, cols: usize) -> (p: Pattern)
    requires
        1 <= cols,
        1 <= b@.len(),
        (b@.len() as int) % (cols as int) == 0,
        a@.len() == b@.len(),
    ensures
        pattern_wf(p),
        pattern_view(p) == (PatternView {
            chance: chance as int,
            priority: priority as int,
            before: GridView {
                rows: (b@.len() as int) / (cols as int),
                cols: cols as int,
                cells: b@,
            },
            after: GridView {
                rows: (a@.len() as int) / (cols as int),
                cols: cols as int,
                cells: a@,
            },
        }),
{
    proof {
        assert(b@.len() >= (1int) * (cols as int)) by (nonlinear_arith)
            requires
                (b@.len() as int) % (cols as int) == 0,
                1 <= b@.len(),
                1 <= cols as int,
        ;
        vstd::arithmetic::div_mod::lemma_div_is_ordered(cols as int, b@.len() as int, cols as int);
        vstd::arithmetic::div_mod::lemma_div_by_self(cols as int);
    }
    Pattern {
        chance,
        priority,
        before: crate::cell_grid::grid_from_vec(b, cols),
        after: crate::cell_grid::grid_from_vec(a, cols),
    }
}


/// The exact fields of the sand rule's pattern at the given index.
pub open spec fn sand_pattern_view(i: int) -> PatternView {
    if i == 0 {
        PatternView {
            chance: 900000,
            priority: 1000000,
            before: GridView { rows: 3, cols: 1, cells: seq![59u8, 0u8, 0u8] },
            after: GridView { rows: 3, cols: 1, cells: seq![0u8, 0u8, 59u8] },
        }
    } else if i == 1 {
        PatternView {
            chance: 1000000,
            priority: 500000,
            before: GridView { rows: 2, cols: 1, cells: seq![59u8, 0u8] },
            after: GridView { rows: 2, cols: 1, cells: seq![0u8, 59u8] },
        }
    } else if i == 2 {
        PatternView {
            chance: 1000000,
            priority: 0,
            before: GridView { rows: 2, cols: 2, cells: seq![59u8, 0u8, 59u8, 0u8] },
            after: GridView { rows: 2, cols: 2, cells: seq![0u8, 0u8, 59u8, 59u8] },
        }
    } else if i == 3 {
        PatternView {
            chance: 1000000,
            priority: 0,
            before: GridView { rows: 2, cols: 2, cells: seq![0u8, 59u8, 0u8, 59u8] },
            after: GridView { rows: 2, cols: 2, cells: seq![0u8, 0u8, 59u8, 59u8] },
        }
    } else if i == 4 {
        PatternView {
            chance: 1000000,
            priority: 0,
            before: GridView { rows: 2, cols: 3, cells: seq![59u8, 0u8, 0u8, 59u8, 59u8, 0u8] },
            after: GridView { rows: 2, cols: 3, cells: seq![0u8, 0u8, 0u8, 59u8, 59u8, 59u8] },
        }
    } else if i == 5 {
        PatternView {
            chance: 1000000,
            priority: 0,
            before: GridView { rows: 2, cols: 3, cells: seq![0u8, 0u8, 59u8, 0u8, 59u8, 59u8] },
            after: GridView { rows: 2, cols: 3, cells: seq![0u8, 0u8, 0u8, 59u8, 59u8, 59u8] },
        }
    } else if i == 6 {
        PatternView {
            chance: 300000,
            priority: 0,
            before: GridView { rows: 2, cols: 1, cells: seq![0u8, 41u8] },
            after: GridView { rows: 2, cols: 1, cells: seq![41u8, 0u8] },
        }
    } else if i == 7 {
        PatternView {
            chance: 100000,
            priority: 0,
            before: GridView { rows: 2, cols: 1, cells: seq![41u8, 0u8] },
            after: GridView { rows: 2, cols: 1, cells: seq![0u8, 41u8] },
        }
    } else if i == 8 {
        PatternView {
            chance: 800000,
            priority: 0,
            before: GridView { rows: 2, cols: 1, cells: seq![59u8, 41u8] },
            after: GridView { rows: 2, cols: 1, cells: seq![41u8, 41u8] },
        }
    } else if i == 9 {
        PatternView {
            chance: 800000,
            priority: 0,
            before: GridView { rows: 1, cols: 2, cells: seq![59u8, 41u8] },
            after: GridView { rows: 1, cols: 2, cells: seq![41u8, 41u8] },
        }
    } else if i == 10 {
        PatternView {
            chance: 800000,
            priority: 0,
            before: GridView { rows: 1, cols: 2, cells: seq![41u8, 59u8] },
            after: GridView { rows: 1, cols: 2, cells: seq![41u8, 41u8] },
        }
    } else if i == 11 {
        PatternView {
            chance: 800000,
            priority: 0,
            before: GridView { rows: 2, cols: 1, cells: seq![41u8, 59u8] },
            after: GridView { rows: 2, cols: 1, cells: seq![41u8, 41u8] },
        }
    } else if i == 12 {
        PatternView {
            chance: 800000,
            priority: 0,
            before: GridView { rows: 2, cols: 2, cells: seq![59u8, 127u8, 127u8, 41u8] },
            after: GridView { rows: 2, cols: 2, cells: seq![41u8, 127u8, 127u8, 127u8] },
        }
    } else if i == 13 {
        PatternView {
            chance: 800000,
            priority: 0,
            before: GridView { rows: 2, cols: 2, cells: seq![127u8, 59u8, 41u8, 127u8] },
            after: GridView { rows: 2, cols: 2, cells: seq![127u8, 41u8, 127u8, 127u8] },
        }
    } else if i == 14 {
        PatternView {
            chance: 800000,
            priority: 0,
            before: GridView { rows: 2, cols: 2, cells: seq![127u8, 41u8, 59u8, 127u8] },
            after: GridView { rows: 2, cols: 2, cells: seq![127u8, 127u8, 41u8, 127u8] },
        }
    } else if i == 15 {
        PatternView {
            chance: 800000,
            priority: 0,
            before: GridView { rows: 2, cols: 2, cells: seq![41u8, 127u8, 127u8, 59u8] },
            after: GridView { rows: 2, cols: 2, cells: seq![127u8, 127u8, 127u8, 41u8] },
        }
    } else if i == 16 {
        PatternView {
            chance: 30000,
            priority: 1000000,
            before: GridView { rows: 1, cols: 1, cells: seq![41u8] },
            after: GridView { rows: 1, cols: 1, cells: seq![36u8] },
        }
    } else if i == 17 {
        PatternView {
            chance: 1000000,
            priority: 0,
            before: GridView { rows: 2, cols: 1, cells: seq![36u8, 0u8] },
            after: GridView { rows: 2, cols: 1, cells: seq![0u8, 36u8] },
        }
    } else if i == 18 {
        PatternView {
            chance: 1000000,
            priority: 0,
            before: GridView { rows: 2, cols: 2, cells: seq![36u8, 0u8, 36u8, 0u8] },
            after: GridView { rows: 2, cols: 2, cells: seq![0u8, 127u8, 36u8, 36u8] },
        }
    } else if i == 19 {
        PatternView {
            chance: 1000000,
            priority: 0,
            before: GridView { rows: 2, cols: 2, cells: seq![0u8, 36u8, 0u8, 36u8] },
            after: GridView { rows: 2, cols: 2, cells: seq![127u8, 0u8, 36u8, 36u8] },
        }
    } else if i == 20 {
        PatternView {
            chance: 1000000,
            priority: 0,
            before: GridView { rows: 2, cols: 1, cells: seq![36u8, 41u8] },
            after: GridView { rows: 2, cols: 1, cells: seq![41u8, 36u8] },
        }
    } else if i == 21 {
        PatternView {
            chance: 1000000,
            priority: 0,
            before: GridView { rows: 2, cols: 1, cells: seq![36u8, 59u8] },
            after: GridView { rows: 2, cols: 1, cells: seq![0u8, 41u8] },
        }
    } else if i == 22 {
        PatternView {
            chance: 1000000,
            priority: 0,
            before: GridView { rows: 2, cols: 1, cells: seq![59u8, 36u8] },
            after: GridView { rows: 2, cols: 1, cells: seq![41u8, 127u8] },
        }
    } else if i == 23 {
        PatternView {
            chance: 100000,
            priority: 0,
            before: GridView { rows: 1, cols: 2, cells: seq![0u8, 41u8] },
            after: GridView { rows: 1, cols: 2, cells: seq![41u8, 0u8] },
        }
    } else if i == 24 {
        PatternView {
            chance: 100000,
            priority: 0,
            before: GridView { rows: 1, cols: 2, cells: seq![41u8, 0u8] },
            after: GridView { rows: 1, cols: 2, cells: seq![0u8, 41u8] },
        }
    } else if i == 25 {
        PatternView {
            chance: 500000,
            priority: 0,
            before: GridView { rows: 2, cols: 1, cells: seq![127u8, 54u8] },
            after: GridView { rows: 2, cols: 1, cells: seq![41u8, 54u8] },
        }
    } else {
        PatternView {
            chance: 0,
            priority: 0,
            before: GridView { rows: 0, cols: 0, cells: Seq::empty() },
            after: GridView { rows: 0, cols: 0, cells: Seq::empty() },
        }
    }
}

impl PatternRule {
    /// A ready-made falling-sand rule: sand sinks and slides, fire rises,
    /// spreads and burns sand to ash, ash settles, and fire sources keep
    /// burning. The default border symbol bounds the grid on both axes.
    #[verifier::rlimit(50)]
    pub fn new_sand() -> (r: Self)
        ensures
            r.patterns_wf(),
            r.patterns@.len() == 26,
            r.row_boundary == BoundaryBehaviour::Symbol(crate::BORDER),
            r.col_boundary == BoundaryBehaviour::Symbol(crate::BORDER),
            forall|i: int|
                0 <= i < 26 ==> #[trigger] pattern_views(r.patterns@)[i] == sand_pattern_view(i),
    {
        let mut patterns: Vec<Pattern> = Vec::new();
        patterns.push(sand_pattern(900000, 1000000, vec![59u8, 0u8, 0u8], vec![0u8, 0u8, 59u8], 1));
        patterns.push(sand_pattern(1000000, 500000, vec![59u8, 0u8], vec![0u8, 59u8], 1));
        patterns.push(sand_pattern(1000000, 0, vec![59u8, 0u8, 59u8, 0u8], vec![0u8, 0u8, 59u8, 59u8], 2));
        patterns.push(sand_pattern(1000000, 0, vec![0u8, 59u8, 0u8, 59u8], vec![0u8, 0u8, 59u8, 59u8], 2));
        patterns.push(sand_pattern(1000000, 0, vec![59u8, 0u8, 0u8, 59u8, 59u8, 0u8], vec![0u8, 0u8, 0u8, 59u8, 59u8, 59u8], 3));
        patterns.push(sand_pattern(1000000, 0, vec![0u8, 0u8, 59u8, 0u8, 59u8, 59u8], vec![0u8, 0u8, 0u8, 59u8, 59u8, 59u8], 3));
        patterns.push(sand_pattern(300000, 0, vec![0u8, 41u8], vec![41u8, 0u8], 1));
        patterns.push(sand_pattern(100000, 0, vec![41u8, 0u8], vec![0u8, 41u8], 1));
        patterns.push(sand_pattern(800000, 0, vec![59u8, 41u8], vec![41u8, 41u8], 1));
        patterns.push(sand_pattern(800000, 0, vec![59u8, 41u8], vec![41u8, 41u8], 2));
        patterns.push(sand_pattern(800000, 0, vec![41u8, 59u8], vec![41u8, 41u8], 2));
        patterns.push(sand_pattern(800000, 0, vec![41u8, 59u8], vec![41u8, 41u8], 1));
        patterns.push(sand_pattern(800000, 0, vec![59u8, 127u8, 127u8, 41u8], vec![41u8, 127u8, 127u8, 127u8], 2));
        patterns.push(sand_pattern(800000, 0, vec![127u8, 59u8, 41u8, 127u8], vec![127u8, 41u8, 127u8, 127u8], 2));
        patterns.push(sand_pattern(800000, 0, vec![127u8, 41u8, 59u8, 127u8], vec![127u8, 127u8, 41u8, 127u8], 2));
        patterns.push(sand_pattern(800000, 0, vec![41u8, 127u8, 127u8, 59u8], vec![127u8, 127u8, 127u8, 41u8], 2));
        patterns.push(sand_pattern(30000, 1000000, vec![41u8], vec![36u8], 1));
        patterns.push(sand_pattern(1000000, 0, vec![36u8, 0u8], vec![0u8, 36u8], 1));
        patterns.push(sand_pattern(1000000, 0, vec![36u8, 0u8, 36u8, 0u8], vec![0u8, 127u8, 36u8, 36u8], 2));
        patterns.push(sand_pattern(1000000, 0, vec![0u8, 36u8, 0u8, 36u8], vec![127u8, 0u8, 36u8, 36u8], 2));
        patterns.push(sand_pattern(1000000, 0, vec![36u8, 41u8], vec![41u8, 36u8], 1));
        patterns.push(sand_pattern(1000000, 0, vec![36u8, 59u8], vec![0u8, 41u8], 1));
        patterns.push(sand_pattern(1000000, 0, vec![59u8, 36u8], vec![41u8, 127u8], 1));
        patterns.push(sand_pattern(100000, 0, vec![0u8, 41u8], vec![41u8, 0u8], 2));
        patterns.push(sand_pattern(100000, 0, vec![41u8, 0u8], vec![0u8, 41u8], 2));
        patterns.push(sand_pattern(500000, 0, vec![127u8, 54u8], vec![41u8, 54u8], 1));
        proof {
            assert(pattern_view(patterns@[0]) == sand_pattern_view(0));
            assert(pattern_view(patterns@[1]) == sand_pattern_view(1));
            assert(pattern_view(patterns@[2]) == sand_pattern_view(2));
            assert(pattern_view(patterns@[3]) == sand_pattern_view(3));
            assert(pattern_view(patterns@[4]) == sand_pattern_view(4));
            assert(pattern_view(patterns@[5]) == sand_pattern_view(5));
            assert(pattern_view(patterns@[6]) == sand_pattern_view(6));
            assert(pattern_view(patterns@[7]) == sand_pattern_view(7));
            assert(pattern_view(patterns@[8]) == sand_pattern_view(8));
            assert(pattern_view(patterns@[9]) == sand_pattern_view(9));
            assert(pattern_view(patterns@[10]) == sand_pattern_view(10));
            assert(pattern_view(patterns@[11]) == sand_pattern_view(11));
            assert(pattern_view(patterns@[12]) == sand_pattern_view(12));
            assert(pattern_view(patterns@[13]) == sand_pattern_view(13));
            assert(pattern_view(patterns@[14]) == sand_pattern_view(14));
            assert(pattern_view(patterns@[15]) == sand_pattern_view(15));
            assert(pattern_view(patterns@[16]).before.cells =~= seq![41u8]);
            assert(pattern_view(patterns@[16]).after.cells =~= seq![36u8]);
            assert(pattern_view(patterns@[16]) == sand_pattern_view(16));
            assert(pattern_view(patterns@[17]) == sand_pattern_view(17));
            assert(pattern_view(patterns@[18]) == sand_pattern_view(18));
            assert(pattern_view(patterns@[19]) == sand_pattern_view(19));
            assert(pattern_view(patterns@[20]) == sand_pattern_view(20));
            assert(pattern_view(patterns@[21]) == sand_pattern_view(21));
            assert(pattern_view(patterns@[22]) == sand_pattern_view(22));
            assert(pattern_view(patterns@[23]) == sand_pattern_view(23));
            assert(pattern_view(patterns@[24]) == sand_pattern_view(24));
            assert(pattern_view(patterns@[25]) == sand_pattern_view(25));
            assert forall|i: int| 0 <= i < 26 implies #[trigger] pattern_views(patterns@)[i]
                == sand_pattern_view(i) by {
                assert(pattern_views(patterns@)[i] == pattern_view(patterns@[i]));
            }
        }
        PatternRule {
            patterns,
            row_boundary: BoundaryBehaviour::Symbol(crate::BORDER),
            col_boundary: BoundaryBehaviour::Symbol(crate::BORDER),
        }
    }
}

} // verus!
