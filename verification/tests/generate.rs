use sudoku_gen::{Board, BoardSize, Coord, IrregularMap, RegionKind};

fn seed_size(size: BoardSize) {
    let row_width = size.width();
    let col_height = size.height();
    let mut board = Board::new(&size, RegionKind::Regular);
    board.seed();
    println!("{}", board.display());
    for i in 0..board.size.max_cells() as usize {
        let col = i % col_height as usize;
        let row = i / row_width as usize;
        assert!(board.grid[row][col].is_value());
    }
}

#[test]
fn seed_small() {
    seed_size(BoardSize::X4);
}

#[test]
fn seed_rect6() {
    seed_size(BoardSize::X6);
}

#[test]
fn seed_standard() {
    seed_size(BoardSize::X9);
}

#[test]
fn seed_rect12() {
    seed_size(BoardSize::X12);
}

#[test]
fn seed_large() {
    seed_size(BoardSize::X16);
}

#[test]
fn seed_irregular() {
    let mut board = Board::new(
        &BoardSize::X4,
        RegionKind::Irregular {
            map: IrregularMap::new(vec![
                vec![0, 0, 0, 1],
                vec![0, 3, 1, 1],
                vec![3, 3, 1, 2],
                vec![3, 2, 2, 2],
            ])
            .unwrap(),
        },
    );
    board.seed();
    assert!(board.validate(false).is_ok());
    println!("--- Seeded ---");
    println!("{}", board.display());
    // Due to the irregular grid map above, we know that
    // the first region contains the first cell (0, 0).
    assert!(board.grid[0][0].is_value());
    for coord in board.kind.siblings(&board.size, Coord::default()) {
        assert!(board.grid[coord.row][coord.col].is_value());
    }
    assert!(board.solve());
    println!("--- Solved ---");
    println!("{}", board.display());
    assert!(board.validate(true).is_ok());
}

#[test]
fn seed_with_given_values() {
    let mut board = Board::new(&BoardSize::X4, RegionKind::Regular);
    board.seed_with(&vec![3, 1, 0, 2]);
    assert_eq!(board.export(), "42..13..........");
    assert!(board.validate(false).is_ok());
}

#[test]
fn seed_fills_first_region_with_distinct_values() {
    let mut board = Board::new(&BoardSize::X9, RegionKind::Regular);
    board.seed();
    let mut seen = Vec::new();
    let mut cells = vec![Coord::default()];
    cells.extend(board.kind.siblings(&board.size, Coord::default()));
    for c in cells {
        let v = board.grid[c.row][c.col].get_value().unwrap();
        assert!(v < 9);
        assert!(!seen.contains(&v));
        seen.push(v);
    }
    assert!(board.validate(false).is_ok());
}

#[test]
fn generate_irregular_board() {
    let map = IrregularMap::generate(&BoardSize::X6).unwrap();
    let mut board = Board::new(&BoardSize::X6, RegionKind::Irregular { map });
    if board.generate() {
        assert!(board.validate(true).is_ok());
    }
}

#[test]
fn generate_fails_on_a_layout_without_solution() {
    // a valid jigsaw layout that no filling of the board satisfies
    let map = IrregularMap::new(vec![
        vec![0, 0, 0, 1],
        vec![0, 2, 1, 1],
        vec![2, 2, 3, 1],
        vec![2, 3, 3, 3],
    ])
    .unwrap();
    let mut board = Board::new(&BoardSize::X4, RegionKind::Irregular { map });
    assert!(!board.generate());
}
