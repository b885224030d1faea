//! Tests of the rule text form and its round trip.

use cellumina::rule::{BoundaryBehaviour, Pattern, PatternRule};

#[test]
fn to_from_string_test() {
    let pattern = Pattern {
        chance: 1_000_000,
        priority: 1_000_000,
        before: grid::Grid::from_vec(vec![0, 0, 1, 0, 1, 1], 3),
        after: grid::Grid::from_vec(vec![127, 127, 0, 1, 127, 127], 3),
    };
    let pattern2 = Pattern::from_text(&pattern.to_text()).unwrap();
    assert_eq!(pattern.chance, pattern2.chance);
    assert_eq!(pattern.priority, pattern2.priority);
    assert_eq!(pattern.before.rows(), pattern2.before.rows());
    assert_eq!(pattern.before.cols(), pattern2.before.cols());
    assert_eq!(pattern.after.rows(), pattern2.after.rows());
    assert_eq!(pattern.after.cols(), pattern2.after.cols());
    for (c1, c2) in pattern.before.iter().zip(pattern2.before.iter()) {
        assert_eq!(*c1, *c2);
    }
    for (c1, c2) in pattern.after.iter().zip(pattern2.after.iter()) {
        assert_eq!(*c1, *c2);
    }
}

#[test]
fn rule_text_shape_test() {
    let rule = PatternRule::from_patterns(
        &vec![Pattern {
            chance: 900_000,
            priority: -500_000,
            before: grid::Grid::from_vec(vec![59, 0], 1),
            after: grid::Grid::from_vec(vec![0, 59], 1),
        }],
        BoundaryBehaviour::Symbol(126),
        BoundaryBehaviour::Periodic,
    );
    let text = String::from_utf8(rule.to_text()).unwrap();
    assert_eq!(text, "Symbol:_;\n\nPeriodic;\n\n0.9;\n-0.5;\nX\n ;\n \nX;\n\n");
}

#[test]
fn rule_round_trip_test() {
    let rule = PatternRule::from_patterns(
        &vec![
            Pattern {
                chance: 900_000,
                priority: 1_000_000,
                before: grid::Grid::from_vec(vec![59, 0, 0, 127], 2),
                after: grid::Grid::from_vec(vec![0, 127, 59, 127], 2),
            },
            Pattern {
                chance: 1_000_000,
                priority: -250_000,
                before: grid::Grid::from_vec(vec![1, 2, 3], 3),
                after: grid::Grid::from_vec(vec![3, 2, 1], 3),
            },
        ],
        BoundaryBehaviour::Periodic,
        BoundaryBehaviour::Symbol(0),
    );
    let rule2 = PatternRule::from_text(&rule.to_text()).unwrap();
    assert_eq!(rule2.row_boundary, rule.row_boundary);
    assert_eq!(rule2.col_boundary, rule.col_boundary);
    assert_eq!(rule2.patterns.len(), rule.patterns.len());
    for (p1, p2) in rule.patterns.iter().zip(rule2.patterns.iter()) {
        assert_eq!(p1.chance, p2.chance);
        assert_eq!(p1.priority, p2.priority);
        assert_eq!(p1.before, p2.before);
        assert_eq!(p1.after, p2.after);
    }
    // The round trip also reproduces the text itself.
    assert_eq!(rule.to_text(), rule2.to_text());
}

#[test]
fn malformed_text_test() {
    let cases: Vec<&str> = vec![
        "",
        "Nonsense;\n\nPeriodic;\n\n",
        "Periodic;\n\nPeriodic;\n\n0.x;\n0;\nX;\nX;\n\n",
        "Periodic;\n\nPeriodic;\n\n1;\n0;\nXX\nX;\nXX\nXX;\n\n",
        "Periodic;\n\nPeriodic;\n\n1;\n0;\nXX;\nXXX;\n\n",
        "Periodic;\n\nPeriodic;\n\n1;\n0;\nXX;\nXX;",
    ];
    for case in cases {
        let bytes: Vec<u8> = case.as_bytes().to_vec();
        assert!(PatternRule::from_text(&bytes).is_err(), "{}", case);
    }
}

#[test]
fn pattern_dimension_error_test() {
    let res = Pattern::new(
        1_000_000,
        0,
        grid::Grid::from_vec(vec![1u8, 2], 2),
        grid::Grid::from_vec(vec![1u8, 2, 3], 3),
    );
    assert!(matches!(res, Err(cellumina::CelluminaError::CustomError(_))));
    let ok = Pattern::new(
        250_000,
        -1,
        grid::Grid::from_vec(vec![1u8, 2], 2),
        grid::Grid::from_vec(vec![3u8, 4], 2),
    );
    assert!(ok.is_ok());
}

#[test]
fn new_empty_round_trip_test() {
    let rule = PatternRule::new_empty();
    let text = String::from_utf8(rule.to_text()).unwrap();
    assert_eq!(text, "Symbol:_;\n\nSymbol:_;\n\n");
    let rule2 = PatternRule::from_text(&rule.to_text()).unwrap();
    assert_eq!(rule2.patterns.len(), 0);
    assert_eq!(rule2.row_boundary, BoundaryBehaviour::Symbol(126));
    assert_eq!(rule2.col_boundary, BoundaryBehaviour::Symbol(126));
}

#[test]
fn parse_serialized_test() {
    let rule = PatternRule::from_patterns(
        &vec![Pattern {
            chance: 750_000,
            priority: 2,
            before: grid::Grid::from_vec(vec![10, 127, 0, 61], 2),
            after: grid::Grid::from_vec(vec![127, 10, 61, 0], 2),
        }],
        BoundaryBehaviour::Symbol(0),
        BoundaryBehaviour::Periodic,
    );
    let again = rule.parse_serialized();
    assert_eq!(again.row_boundary, rule.row_boundary);
    assert_eq!(again.col_boundary, rule.col_boundary);
    assert_eq!(again.patterns.len(), 1);
    assert_eq!(again.patterns[0].chance, 750_000);
    assert_eq!(again.patterns[0].priority, 2);
    assert_eq!(again.patterns[0].before, rule.patterns[0].before);
    assert_eq!(again.patterns[0].after, rule.patterns[0].after);
}
