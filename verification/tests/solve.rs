use sudoku_gen::{Board, BoardSize, Cell, Coord, IrregularMap, RegionKind};

fn gen_solve(size: BoardSize) {
    let mut board = Board::new(&size, RegionKind::Regular);
    assert!(board.generate());
    println!("Solved:\n{}", board.display());
    assert!(board.validate(true).is_ok());
}

#[test]
fn gen_solve_4x4() {
    gen_solve(BoardSize::X4);
}

#[test]
fn gen_solve_6x6() {
    gen_solve(BoardSize::X6);
}

#[test]
fn gen_solve_9x9() {
    gen_solve(BoardSize::X9);
}

#[test]
fn gen_solve_12x12() {
    gen_solve(BoardSize::X12);
}

#[test]
fn gen_solve_16x16() {
    gen_solve(BoardSize::X16);
}

#[test]
fn solve_known_puzzle() {
    let input = [
        "53..7....",
        "6..195...",
        ".98....6.",
        "8...6...3",
        "4..8.3..1",
        "7...2...6",
        ".6....28.",
        "...419..5",
        "....8..79"
    ].concat();
    let mut board = Board::from_str(&input).unwrap();
    assert!(board.validate(false).is_ok());
    assert!(board.solve());
    assert!(board.validate(true).is_ok());
    assert_eq!(
        board.export(),
        "534678912672195348198342567859761423426853791713924856961537284287419635345286179"
    );
}

#[test]
fn solve_keeps_given_values() {
    let input = "1...............";
    let mut board = Board::from_str(&input).unwrap();
    assert!(board.solve());
    assert!(board.validate(true).is_ok());
    assert_eq!(board.grid[0][0], Cell::Value(0));
}

#[test]
fn unsolvable_board_is_reported() {
    // an empty cell without any candidate cannot be filled
    let mut board = Board::from_str("1...............").unwrap();
    board.grid[0][1] = Cell::Notes(std::collections::HashSet::new());
    assert!(board.has_unsolvable_cells());
    assert!(!board.solve());
}

#[test]
fn least_notes_cell() {
    let mut board = Board::default();
    // on a fresh board every cell has all its candidates: the first one is picked
    assert_eq!(board.get_cell_with_least_notes(), Some(Coord { row: 0, col: 0 }));
    board.set_cell(Coord { row: 0, col: 0 }, 0);
    // (0, 1) shares a row and a region with (0, 0): 8 candidates; it comes first
    assert_eq!(board.get_cell_with_least_notes(), Some(Coord { row: 0, col: 1 }));
}

#[test]
fn seed_irregular_then_solve() {
    let mut board = Board::new(
        &BoardSize::X4,
        RegionKind::Irregular {
            map: IrregularMap::new(vec![
                vec![0, 0, 0, 1],
                vec![0, 3, 1, 1],
                vec![3, 3, 1, 2],
                vec![3, 2, 2, 2],
            ])
            .unwrap(),
        },
    );
    board.seed();
    assert!(board.validate(false).is_ok());
    assert!(board.solve());
    assert!(board.validate(true).is_ok());
}

#[test]
fn import_solve() {
    // the basic puzzle of the project's documentation
    let board_str = [
        ".5.9.86..\n",
        "8....6..7\n",
        "..6.2....\n",
        "..9....7.\n",
        "2.3...8.9\n",
        ".1....4..\n",
        "....3.7..\n",
        "9..8....4\n",
        "..56.4.3.\n",
    ]
    .concat();
    let mut board = Board::from_str(&board_str).unwrap();
    println!("{}", board.display());
    assert!(board.validate(false).is_ok());
    assert!(board.solve());
    println!("{}", board.display());
    assert!(board.validate(true).is_ok());
    assert_eq!(
        board.export(),
        "357948621821356947496721385549183276273465819618279453164532798932817564785694132"
    );
}

#[test]
fn fresh_board_is_solved_completely() {
    let mut board = Board::new(&BoardSize::X4, RegionKind::Regular);
    assert!(board.solve());
    assert!(board.validate(true).is_ok());
    for row in 0..4 {
        for col in 0..4 {
            assert!(board.grid[row][col].is_value());
        }
    }
}

#[test]
fn no_cell_with_notes_left() {
    let mut board = Board::new(&BoardSize::X4, RegionKind::Regular);
    assert!(board.solve());
    assert_eq!(board.get_cell_with_least_notes(), None);
}
