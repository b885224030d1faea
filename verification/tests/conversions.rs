//! Tests of the character / cell-value conversions.

use cellumina::{char_to_id, id_to_char};

#[test]
fn conversion_test() {
    assert_eq!(
        ('0'..='9').map(char_to_id).collect::<Vec<u8>>(),
        (0..10).collect::<Vec<u8>>()
    );
    assert_eq!(
        ('a'..='z').map(char_to_id).collect::<Vec<u8>>(),
        (10..36).collect::<Vec<u8>>()
    );
    assert_eq!(
        ('A'..='Z').map(char_to_id).collect::<Vec<u8>>(),
        (36..62).collect::<Vec<u8>>()
    );
    assert_eq!(
        (1..10).map(id_to_char).collect::<Vec<char>>(),
        ('1'..='9').collect::<Vec<char>>()
    );
    assert_eq!(
        (10..36).map(id_to_char).collect::<Vec<char>>(),
        ('a'..='z').collect::<Vec<char>>()
    );
    assert_eq!(
        (36..62).map(id_to_char).collect::<Vec<char>>(),
        ('A'..='Z').collect::<Vec<char>>()
    );
}

#[test]
fn reserved_symbols_test() {
    assert_eq!(char_to_id(' '), 0);
    assert_eq!(char_to_id('*'), 127);
    assert_eq!(char_to_id('_'), 126);
    assert_eq!(char_to_id('?'), 0);
    assert_eq!(id_to_char(0), ' ');
    assert_ne!(id_to_char(0), '0');
    assert_eq!(id_to_char(127), '*');
    assert_eq!(id_to_char(126), '_');
    assert_eq!(id_to_char(100), ' ');
}

#[test]
fn set_cell_test() {
    let mut grid = grid::Grid::from_vec(vec![0u8, 1, 2, 3], 2);
    assert_eq!(cellumina::set_cell(&mut grid, 0, 1, 9), Ok(true));
    assert_eq!(grid[(0, 1)], 9);
    assert_eq!(cellumina::set_cell(&mut grid, 0, 1, 9), Ok(false));
    let res = cellumina::set_cell(&mut grid, 2, 0, 5);
    assert!(matches!(
        res,
        Err(cellumina::CelluminaError::IndexOutOfBoundsError(2, 0, 2, 2))
    ));
    assert_eq!(grid, grid::Grid::from_vec(vec![0u8, 9, 2, 3], 2));
}

#[test]
fn grid_from_lines_test() {
    let lines: Vec<Vec<u8>> = vec![b"1 2".to_vec(), b"a".to_vec(), b"*_".to_vec()];
    let grid = cellumina::grid_from_lines(&lines).unwrap();
    assert_eq!(
        grid,
        grid::Grid::from_vec(vec![1, 0, 2, 10, 0, 0, 127, 126, 0], 3)
    );
    assert!(cellumina::grid_from_lines(&Vec::new()).is_err());
    assert!(cellumina::grid_from_lines(&vec![Vec::new(), Vec::new()]).is_err());
}

#[test]
fn cell_for_color_test() {
    let table: Vec<(u8, u32)> = vec![(1, 0xff0000ff), (2, 0x00ff00ff), (3, 0xff0000ff)];
    assert_eq!(cellumina::cell_for_color(&table, 0xff0000ff), 1);
    assert_eq!(cellumina::cell_for_color(&table, 0x00ff00ff), 2);
    assert_eq!(cellumina::cell_for_color(&table, 0x12345678), 0);
}
