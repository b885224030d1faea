//! Tests of the stencil and pattern rule engines.

use cellumina::rule::{
    BoundaryBehaviour, EnvironmentRule, MultiRule, Pattern, PatternRule, Rule,
};

fn gol_grid(cells: Vec<u8>, cols: usize) -> cellumina::CellGrid {
    grid::Grid::from_vec(cells, cols)
}

#[test]
fn game_of_life_step_test() {
    let rule = EnvironmentRule::new_gol();
    let mut grid = gol_grid(
        vec![
            0, 0, 1, 0, 0, //
            0, 0, 1, 0, 0, //
            0, 0, 0, 0, 0, //
            0, 0, 1, 0, 0, //
            0, 0, 1, 0, 0,
        ],
        5,
    );
    rule.transform(&mut grid);
    assert_eq!(
        grid,
        gol_grid(
            vec![
                0, 1, 1, 1, 0, //
                0, 0, 0, 0, 0, //
                0, 0, 0, 0, 0, //
                0, 0, 0, 0, 0, //
                0, 1, 1, 1, 0,
            ],
            5,
        )
    );
    rule.transform(&mut grid);
    rule.transform(&mut grid);
    rule.transform(&mut grid);
    assert_eq!(
        grid,
        gol_grid(
            vec![
                0, 1, 0, 1, 0, //
                0, 0, 1, 0, 0, //
                0, 0, 0, 0, 0, //
                0, 0, 1, 0, 0, //
                0, 1, 0, 1, 0,
            ],
            5,
        )
    );
}

#[test]
fn sand_gravity_test() {
    let rule = PatternRule::from_patterns(
        &vec![Pattern {
            chance: 1_000_000,
            priority: 1_000_000,
            before: grid::Grid::from_vec(vec![59, 0], 1),
            after: grid::Grid::from_vec(vec![0, 59], 1),
        }],
        BoundaryBehaviour::Symbol(126),
        BoundaryBehaviour::Symbol(126),
    );
    let mut grid = grid::Grid::from_vec(vec![59u8, 0, 0], 1);
    rule.transform(&mut grid);
    assert_eq!(grid, grid::Grid::from_vec(vec![0u8, 59, 0], 1));
}

#[test]
fn pattern_rule_test() {
    let rule = PatternRule::from_patterns(
        &vec![
            Pattern {
                chance: 1_000_000,
                priority: 1_000_000,
                before: grid::Grid::from_vec(vec![1, 0], 1),
                after: grid::Grid::from_vec(vec![0, 1], 1),
            },
            Pattern {
                chance: 1_000_000,
                priority: 500_000,
                before: grid::Grid::from_vec(vec![0, 1, 1, 0], 2),
                after: grid::Grid::from_vec(vec![1, 1, 0, 0], 2),
            },
        ],
        BoundaryBehaviour::Symbol(126),
        BoundaryBehaviour::Symbol(126),
    );

    let mut grid = grid::Grid::from_vec(vec![0, 1, 1, 0, 0, 0], 2);
    rule.transform(&mut grid);
    assert_eq!(grid, grid::Grid::from_vec(vec![0, 0, 0, 1, 1, 0], 2));
    rule.transform(&mut grid);
    assert_eq!(grid, grid::Grid::from_vec(vec![0, 0, 0, 0, 1, 1], 2));

    let rule2 = PatternRule::from_text(&rule.to_text()).unwrap();

    let mut grid = grid::Grid::from_vec(vec![0, 1, 1, 0, 0, 0], 2);
    rule2.transform(&mut grid);
    assert_eq!(grid, grid::Grid::from_vec(vec![0, 0, 0, 1, 1, 0], 2));
    rule2.transform(&mut grid);
    assert_eq!(grid, grid::Grid::from_vec(vec![0, 0, 0, 0, 1, 1], 2));
}

#[test]
fn boundary_modes_test() {
    // A 1-row grid [A, B] and a 1x2 pattern that matches B followed (to the
    // right, wrapping) by A. Periodic boundaries allow the wrapping match;
    // Symbol boundaries exclude any anchor whose window leaves the grid.
    let pattern = Pattern {
        chance: 1_000_000,
        priority: 0,
        before: grid::Grid::from_vec(vec![2, 1], 2),
        after: grid::Grid::from_vec(vec![3, 4], 2),
    };
    let periodic = PatternRule::from_patterns(
        &vec![pattern.clone()],
        BoundaryBehaviour::Periodic,
        BoundaryBehaviour::Periodic,
    );
    let mut grid = grid::Grid::from_vec(vec![1u8, 2], 2);
    periodic.transform(&mut grid);
    assert_eq!(grid, grid::Grid::from_vec(vec![4u8, 3], 2));

    let bounded = PatternRule::from_patterns(
        &vec![pattern],
        BoundaryBehaviour::Symbol(126),
        BoundaryBehaviour::Symbol(126),
    );
    let mut grid = grid::Grid::from_vec(vec![1u8, 2], 2);
    bounded.transform(&mut grid);
    assert_eq!(grid, grid::Grid::from_vec(vec![1u8, 2], 2));
}

#[test]
fn wildcard_noop_test() {
    // A pattern whose after template is all wildcards matches everywhere and
    // never changes the grid.
    let rule = PatternRule::from_patterns(
        &vec![Pattern {
            chance: 1_000_000,
            priority: 1_000_000,
            before: grid::Grid::from_vec(vec![127u8], 1),
            after: grid::Grid::from_vec(vec![127u8], 1),
        }],
        BoundaryBehaviour::Periodic,
        BoundaryBehaviour::Periodic,
    );
    let mut grid = grid::Grid::from_vec(vec![5u8, 6, 7, 8], 2);
    for _ in 0..10 {
        rule.transform(&mut grid);
    }
    assert_eq!(grid, grid::Grid::from_vec(vec![5u8, 6, 7, 8], 2));
}

#[test]
fn chance_zero_test() {
    // A zero chance means a match is never applied.
    let rule = PatternRule::from_patterns(
        &vec![Pattern {
            chance: 0,
            priority: 0,
            before: grid::Grid::from_vec(vec![1u8], 1),
            after: grid::Grid::from_vec(vec![2u8], 1),
        }],
        BoundaryBehaviour::Periodic,
        BoundaryBehaviour::Periodic,
    );
    let mut grid = grid::Grid::from_vec(vec![1u8, 1], 1);
    for _ in 0..10 {
        rule.transform(&mut grid);
    }
    assert_eq!(grid, grid::Grid::from_vec(vec![1u8, 1], 1));
}

#[test]
fn deterministic_under_full_chance_test() {
    // Non-overlapping patterns with full chance give the same next grid on
    // every run, whatever the random tie-break shuffle did.
    let rule = PatternRule::from_patterns(
        &vec![
            Pattern {
                chance: 1_000_000,
                priority: 500_000,
                before: grid::Grid::from_vec(vec![1, 0], 1),
                after: grid::Grid::from_vec(vec![0, 1], 1),
            },
            Pattern {
                chance: 1_000_000,
                priority: 200_000,
                before: grid::Grid::from_vec(vec![3, 0], 1),
                after: grid::Grid::from_vec(vec![0, 3], 1),
            },
        ],
        BoundaryBehaviour::Symbol(126),
        BoundaryBehaviour::Symbol(126),
    );
    let start = vec![1u8, 0, 3, 0, 0, 1, 0, 3, 0];
    let mut first = grid::Grid::from_vec(start.clone(), 3);
    rule.transform(&mut first);
    for _ in 0..20 {
        let mut grid = grid::Grid::from_vec(start.clone(), 3);
        rule.transform(&mut grid);
        assert_eq!(grid, first);
    }
}

#[test]
fn multi_rule_test() {
    // A multi rule applies its rules in order within one step.
    let step_down = |before: Vec<u8>, after: Vec<u8>| {
        PatternRule::from_patterns(
            &vec![Pattern {
                chance: 1_000_000,
                priority: 0,
                before: grid::Grid::from_vec(before, 1),
                after: grid::Grid::from_vec(after, 1),
            }],
            BoundaryBehaviour::Symbol(126),
            BoundaryBehaviour::Symbol(126),
        )
    };
    let multi = MultiRule {
        rules: vec![step_down(vec![9, 0], vec![0, 9]), step_down(vec![9, 0], vec![0, 9])],
    };
    let mut grid = grid::Grid::from_vec(vec![9u8, 0, 0], 1);
    multi.transform(&mut grid);
    assert_eq!(grid, grid::Grid::from_vec(vec![0u8, 0, 9], 1));
}

#[test]
fn conflict_resolution_priority_test() {
    // Two patterns claim the same cell; the higher priority always wins.
    let rule = PatternRule::from_patterns(
        &vec![
            Pattern {
                chance: 1_000_000,
                priority: 2_000_000,
                before: grid::Grid::from_vec(vec![1u8], 1),
                after: grid::Grid::from_vec(vec![7u8], 1),
            },
            Pattern {
                chance: 1_000_000,
                priority: 1_000_000,
                before: grid::Grid::from_vec(vec![1u8], 1),
                after: grid::Grid::from_vec(vec![8u8], 1),
            },
        ],
        BoundaryBehaviour::Symbol(126),
        BoundaryBehaviour::Symbol(126),
    );
    for _ in 0..10 {
        let mut grid = grid::Grid::from_vec(vec![1u8], 1);
        rule.transform(&mut grid);
        assert_eq!(grid, grid::Grid::from_vec(vec![7u8], 1));
    }
}

#[test]
fn new_sand_shape_test() {
    let rule = PatternRule::new_sand();
    assert_eq!(rule.patterns.len(), 26);
    assert_eq!(rule.row_boundary, BoundaryBehaviour::Symbol(126));
    // Sand falls: a lone grain above empty cells ends at the bottom.
    let mut grid = grid::Grid::from_vec(vec![59u8, 0, 0, 0], 1);
    for _ in 0..40 {
        rule.transform(&mut grid);
    }
    assert_eq!(grid[(3, 0)], 59);
}

#[test]
fn pattern_default_test() {
    let pattern = Pattern::default();
    assert_eq!(pattern.chance, 1_000_000);
    assert_eq!(pattern.priority, 0);
    assert_eq!(pattern.before, grid::Grid::from_vec(vec![127u8], 1));
    assert_eq!(pattern.after, grid::Grid::from_vec(vec![127u8], 1));
}
