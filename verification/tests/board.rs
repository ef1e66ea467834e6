use std::collections::HashSet;

use sudoku_gen::{Board, Cell, Coord};

#[test]
fn set_cell() {
    let mut board = Board::default();
    // notes are auto-populated by Board::default()
    let valid = board.size.max_cells() as usize - 1;
    board.set_cell(
        Coord {
            row: valid,
            col: valid,
        },
        valid as u8,
    );
    assert_eq!(board.grid[valid][valid], Cell::Value(valid as u8));
    //check siblings' notes
    for coord in board.kind.siblings(
        &board.size,
        Coord {
            row: valid,
            col: valid,
        },
    ) {
        let notes = board.grid[coord.row][coord.col].get_notes().unwrap();
        assert!(!notes.contains(&(valid as u8)));
    }
    // check note for other cells in the same row
    for (i, cell) in board.grid[valid].iter().enumerate() {
        if i != valid {
            let notes = cell.get_notes().unwrap();
            assert!(!notes.contains(&(valid as u8)));
        }
    }
    // check note for other cells in the same column
    for i in 0..board.size.max_cells() as usize {
        if i != valid {
            let notes = board.grid[i][valid].get_notes().unwrap();
            assert!(!notes.contains(&(valid as u8)));
        }
    }
}

#[test]
fn clear_cell() {
    let mut board = Board::default();
    assert!(board.generate());
    assert!(board.validate(true).is_ok());
    println!("{}", String::from(&board));
    let max_cells = board.size.max_cells() as usize;

    // store expected notes from validated values
    let mut valid_values = Vec::new();
    for row in 0..max_cells {
        let mut row_values = vec![];
        for col in 0..max_cells {
            row_values.push(board.grid[row][col].get_value().unwrap());
        }
        valid_values.push(row_values);
    }

    // clear the cells defined by tested_sets
    for row in 0..max_cells {
        for col in 0..max_cells {
            board.clear_cell(Coord { row, col });
            assert!(board.grid[row][col].is_notes());
        }
    }
    board.clear_cell(Coord::default()); // repeated clear should do nothing

    // check notes for the cleared cells
    for row in 0..max_cells {
        for col in 0..max_cells {
            let notes = &board.grid[row][col].get_notes().unwrap();
            println!("({row}, {col}) notes: {notes:?}");
            assert!(notes.contains(&valid_values[row][col]));
        }
    }
}

#[test]
fn set_note() {
    let mut board = Board::default();
    let valid = board.size.max_cells() as usize - 1;
    let coord = Coord {
        row: valid,
        col: valid,
    };
    // notes are auto-populated by Board::default()
    // so first clear the notes in the cell.
    board.clear_note(coord, valid as u8);
    let notes = &board.grid[valid][valid].get_notes().unwrap();
    assert!(!notes.contains(&(valid as u8)));
    board.set_note(coord, valid as u8);
    let notes = &board.grid[valid][valid].get_notes().unwrap();
    assert!(notes.contains(&(valid as u8)));
}

#[test]
fn invalid_access() {
    let mut board = Board::default();
    let faulty = board.size.max_cells() as usize;
    let valid = faulty - 1;

    assert!(
        board
            .get_cell(Coord {
                row: faulty,
                col: valid
            })
            .is_none()
    );
    assert!(
        board
            .get_cell(Coord {
                row: valid,
                col: faulty
            })
            .is_none()
    );

    board.set_cell(
        Coord {
            row: faulty,
            col: valid,
        },
        valid as u8,
    );
    board.set_cell(
        Coord {
            row: valid,
            col: faulty,
        },
        valid as u8,
    );
    board.set_cell(
        Coord {
            row: valid,
            col: valid,
        },
        faulty as u8,
    );
    board.clear_cell(Coord {
        row: valid,
        col: faulty,
    });
    board.clear_cell(Coord {
        row: faulty,
        col: valid,
    });
    // notes are auto-populated by Board::default()
    assert_eq!(
        board.grid[valid][valid],
        Cell::Notes(HashSet::from_iter(0..board.size.max_cells()))
    );
}

#[test]
fn clear_cell_restores_value_as_candidate() {
    let mut board = Board::default();
    let coord = Coord { row: 4, col: 4 };
    board.set_cell(coord, 6);
    assert_eq!(board.grid[4][0].get_notes().unwrap().contains(&6), false);
    board.clear_cell(coord);
    assert!(board.grid[4][4].get_notes().unwrap().contains(&6));
    assert!(board.grid[4][0].get_notes().unwrap().contains(&6));
    assert!(board.grid[0][4].get_notes().unwrap().contains(&6));
    assert!(board.grid[3][3].get_notes().unwrap().contains(&6));
}

#[test]
fn new_board_has_every_candidate() {
    let board = Board::default();
    for row in 0..9 {
        for col in 0..9 {
            let expected: HashSet<u8> = HashSet::from_iter(0..9);
            assert_eq!(board.grid[row][col], Cell::Notes(expected));
        }
    }
}

#[test]
fn clear_then_set_gives_the_board_back() {
    let mut board = Board::default();
    assert!(board.generate());
    let before = board.clone();
    let coord = Coord { row: 4, col: 7 };
    let value = board.grid[4][7].get_value().unwrap();
    board.clear_cell(coord);
    assert!(board.grid[4][7].is_notes());
    board.set_cell(coord, value);
    assert_eq!(board, before);
}

#[test]
fn import_of_export_gives_the_board_back() {
    let mut board = Board::default();
    assert!(board.generate());
    board.clear_cell(Coord { row: 2, col: 5 });
    let copy = Board::from_str(&board.export()).unwrap();
    assert_eq!(copy, board);
}
