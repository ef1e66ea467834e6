use std::collections::HashSet;

use sudoku_gen::{Board, BoardSize, Cell, Coord, RegionKind, ValidationResults};

/// A solved board in which the value of the first cell also lies at
/// (1, 7) and (3, 1).
fn solution() -> String {
    [
    "534912687",
    "672348159",
    "198567324",
    "859423716",
    "426791835",
    "713856942",
    "961284573",
    "287635491",
    "345179268",
].concat()
}

#[test]
fn invalid_board() {
    // for this test we need a static and solved board (no randomness)
    let board = Board::from_str(&solution()).unwrap();
    assert!(board.validate(true).is_ok());
    println!("--- Valid Board ---");
    println!("{}", board.display());
    let faulty_value = board
        .get_cell(Coord::default())
        .unwrap()
        .get_value()
        .unwrap();

    let mut invalid_board = board.clone();
    invalid_board.grid[0][0] = Cell::Value(faulty_value);
    // Set a duplicate values in the same row
    invalid_board.grid[0][1] = Cell::Value(faulty_value);
    // Set a duplicate values in the same column
    invalid_board.grid[1][0] = Cell::Value(faulty_value);
    // Set some duplicate values in the same region
    invalid_board.grid[1][1] = Cell::Value(faulty_value);
    // Set a cell in first region to empty
    invalid_board.grid[2][2] = Cell::Notes(HashSet::new());
    // Set a cell in first row to empty
    invalid_board.grid[0][2] = Cell::Notes(HashSet::new());
    // Set a cell in first col to empty
    invalid_board.grid[2][0] = Cell::Notes(HashSet::new());
    // Set a cell in first col to a value out of regions' bounds
    invalid_board.grid[2][1] = Cell::Value(board.size.max_cells());

    println!("--- Invalid Board ---");

    let mut result = invalid_board.validate(true);
    assert!(!result.is_ok());

    let duplicates = vec![
        Coord { row: 0, col: 0 },
        Coord { row: 0, col: 1 },
        Coord { row: 1, col: 0 },
        Coord { row: 1, col: 1 },
        Coord { row: 3, col: 1 }, // existing cells conflicting with faulty_value
        Coord { row: 1, col: 7 }, // existing cells conflicting with faulty_value
    ];
    assert_eq!(result.duplicates[&faulty_value], duplicates);

    assert_eq!(
        result.incomplete,
        vec![
            Coord { row: 0, col: 2 },
            Coord { row: 2, col: 0 },
            Coord { row: 2, col: 2 },
        ]
    );

    let invalid_coord = Coord { row: 2, col: 1 };
    assert_eq!(result.invalid_values, vec![invalid_coord]);
    result.push_invalid_value(invalid_coord); // should be non-op (for code coverage)
    assert_eq!(result.invalid_values, vec![invalid_coord]);
}

#[test]
fn empty_results_are_ok() {
    let results = ValidationResults::default();
    assert!(results.is_ok());
}

#[test]
fn incomplete_board_is_ok_unless_solved() {
    let board = Board::from_str("1...............").unwrap();
    assert!(board.validate(false).is_ok());
    let results = board.validate(true);
    assert!(!results.is_ok());
    // every empty cell is reported
    assert_eq!(results.incomplete.len(), 15);
    let empty = Board::new(&BoardSize::X4, RegionKind::Regular);
    let results = empty.validate(true);
    assert!(!results.is_ok());
    assert_eq!(results.incomplete.len(), 16);
    assert!(results.duplicates.is_empty());
    assert!(results.invalid_values.is_empty());
}

#[test]
fn push_duplicate_merges_coordinates() {
    let mut results = ValidationResults::default();
    results.push_duplicate(3, vec![Coord { row: 0, col: 0 }, Coord { row: 0, col: 1 }]);
    results.push_duplicate(3, vec![Coord { row: 0, col: 1 }, Coord { row: 2, col: 0 }]);
    assert_eq!(
        results.duplicates[&3],
        vec![
            Coord { row: 0, col: 0 },
            Coord { row: 0, col: 1 },
            Coord { row: 2, col: 0 },
        ]
    );
    assert!(!results.is_ok());
}
