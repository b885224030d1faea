//! Transformation rules: the common [`Rule`] contract, rule composition, and
//! the boundary policies shared by the concrete rule kinds.

pub mod environment_rule;
pub mod pattern_rule;
pub mod resolution;
pub mod text_format;

use crate::cell_grid::{grid_cols, grid_rows, grid_wf, view_of, CellGrid, GridView};
use vstd::prelude::*;

pub use environment_rule::CellTransform;
pub use environment_rule::EnvironmentRule;
pub use environment_rule::GameOfLifeTransform;
pub use pattern_rule::Pattern;
pub use pattern_rule::PatternRule;

verus! {

/// Describes how a rule resolves reads of coordinates that lie outside the
/// state grid, per axis.
#[derive(Clone, Copy, Debug, PartialEq, Eq, Structural)]
pub enum BoundaryBehaviour {
    /// Out-of-range coordinates wrap around modulo the grid dimension.
    Periodic,
    /// Out-of-range reads return the given fixed symbol; pattern windows that
    /// would leave the grid are excluded from the search instead.
    Symbol(u8),
}

impl Default for BoundaryBehaviour {
    /// The default policy wraps around the grid edges.
    fn default() -> (b: BoundaryBehaviour)
        ensures
            b == BoundaryBehaviour::Periodic,
    {
        BoundaryBehaviour::Periodic
    }
}

/// A rule describes a transition from one state of a cellular automaton to
/// the next. Transformation happens in place and keeps the grid dimensions.
pub trait Rule: Sized {
    /// The rule's own configuration is well-formed.
    spec fn rule_wf(&self) -> bool;

    /// The rule may be applied to a grid of the given dimensions.
    spec fn compatible(&self, rows: int, cols: int) -> bool;

    /// The rule's step relation: the grids `post` may leave behind after one
    /// application to `pre`. Each rule kind defines it: the stencil rule's
    /// pointwise window equation, the pattern rule's claim-walk outcomes,
    /// and the composite rule's in-order chain of its members' steps.
    spec fn step_ok(&self, pre: GridView, post: GridView) -> bool;

    /// Transforms the passed cell grid according to this transformation
    /// rule: the new grid stands in the rule's step relation to the old one.
    fn transform(&self, grid: &mut CellGrid)
        requires
            self.rule_wf(),
            grid_wf(*old(grid)),
            self.compatible(grid_rows(*old(grid)) as int, grid_cols(*old(grid)) as int),
        ensures
            grid_wf(*final (grid)),
            grid_rows(*final (grid)) == grid_rows(*old(grid)),
            grid_cols(*final (grid)) == grid_cols(*old(grid)),
            self.step_ok(view_of(*old(grid)), view_of(*final (grid))),
    ;
}

/// The rules are applied to `pre` strictly in order, each one's output grid
/// being the next one's input, and `post` is the last output: there is a
/// sequence of intermediate grids linked pairwise by the rules' step
/// relations.
pub open spec fn chain_ok<R: Rule>(rules: Seq<R>, pre: GridView, post: GridView) -> bool {
    exists|mids: Seq<GridView>|
        {
            &&& #[trigger] mids.len() == rules.len() + 1
            &&& mids[0] == pre
            &&& mids[rules.len() as int] == post
            &&& forall|t: int|
                0 <= t < rules.len() ==> #[trigger] rules[t].step_ok(mids[t], mids[t + 1])
        }
}

/// A multi rule applies a sequence of rules in order within one time step;
/// each rule reads the grid the previous one produced.
pub struct MultiRule<R: Rule> {
    /// The collection of rules to be applied in order.
    pub rules: Vec<R>,
}

impl<R: Rule> Rule for MultiRule<R> {
    open spec fn rule_wf(&self) -> bool {
        forall|i: int| 0 <= i < self.rules@.len() ==> #[trigger] self.rules@[i].rule_wf()
    }

    open spec fn compatible(&self, rows: int, cols: int) -> bool {
        forall|i: int|
            0 <= i < self.rules@.len() ==> #[trigger] self.rules@[i].compatible(rows, cols)
    }

    open spec fn step_ok(&self, pre: GridView, post: GridView) -> bool {
        chain_ok(self.rules@, pre, post)
    }

    /// Applies the contained rules strictly in order; each rule reads the
    /// grid the previous rule produced.
    fn transform(&self, grid: &mut CellGrid) {
        let ghost rows0 = grid_rows(*grid);
        let ghost cols0 = grid_cols(*grid);
        let ghost pre0 = view_of(*grid);
        let ghost mut mids: Seq<GridView> = seq![pre0];
        let n = self.rules.len();
        let mut i: usize = 0;
        while i < n
            invariant
                n == self.rules@.len(),
                i <= n,
                self.rule_wf(),
                self.compatible(rows0 as int, cols0 as int),
                grid_wf(*grid),
                grid_rows(*grid) == rows0,
                grid_cols(*grid) == cols0,
                mids.len() == i + 1,
                mids[0] == pre0,
                mids[i as int] == view_of(*grid),
                forall|t: int|
                    0 <= t < i ==> #[trigger] self.rules@[t].step_ok(mids[t], mids[t + 1]),
            decreases n - i,
        {
            self.rules[i].transform(grid);
            proof {
                let ghost mids_old = mids;
                mids = mids.push(view_of(*grid));
                assert(forall|t: int| 0 <= t < mids_old.len() ==> mids[t] == #[trigger] mids_old[t]);
                assert(mids[i + 1] == view_of(*grid));
            }
            i += 1;
        }
        proof {
            assert(self.step_ok(pre0, view_of(*grid))) by {
                assert({
                    &&& mids.len() == self.rules@.len() + 1
                    &&& mids[0] == pre0
                    &&& mids[self.rules@.len() as int] == view_of(*grid)
                    &&& forall|t: int|
                        0 <= t < self.rules@.len() ==> #[trigger] self.rules@[t].step_ok(
                            mids[t],
                            mids[t + 1],
                        )
                });
            }
        }
    }
}

} // verus!
