use sudoku_gen::{Board, BoardKind, BoardSize, Cell, Coord, IrregularMap, ParseError};

#[test]
fn print_irregular_board() {
    let input = "1034.2....3... 4";
    let kind = BoardKind::Irregular {
        map: IrregularMap::new(vec![
            vec![0, 0, 1, 1],
            vec![0, 1, 1, 3],
            vec![0, 2, 2, 3],
            vec![2, 2, 3, 3],
        ])
        .unwrap(),
    };
    let mut board = Board::from_str(&input).unwrap();
    board.kind = kind;
    println!("{}", board.display());
    let output = String::from(&board);
    assert_eq!(input.replace(&['0', ' '], "."), output);
}

#[test]
fn print_4x4_board() {
    let input = ["1034", ".2..", "..3.", "...4"].concat();
    let board = Board::from_str(&input).unwrap();
    let display = board.display();
    println!("{display}");
    assert!(!display.contains('0'));
    let output = String::from(&board);
    assert_eq!(input.replace(&[' ', '0'], "."), output);
}

#[test]
fn print_6x6_board() {
    let input = "1.34.6...0 ...3.5........5.3..6.34.1";
    let board = Board::from_str(&input).unwrap();
    let display = board.display();
    println!("{display}");
    assert!(!display.contains('0'));
    let output = String::from(&board);
    assert_eq!(input.replace(&[' ', '0'], "."), output);
}

#[test]
fn print_9x9_board() {
    let input = [
        "53..7....",
        "6..195. 0",
        ".98....6.",
        "8...6...3",
        "4..8.3..1",
        "7...2...6",
        ".6....28.",
        "...419..5",
        "....8..79"
    ].concat();
    let board = Board::from_str(&input).unwrap();
    let display = board.display();
    println!("{display}");
    assert!(!display.contains('0'));
    let output = String::from(&board);
    assert_eq!(input.replace(&[' ', '0'], "."), output);
}

#[test]
fn print_12x12_board() {
    let input = [
        ".23456789ABCD0E1 ..3456789abcd0E1.2 ..456789ABCD0E12.3 ",
        "..56789ABCD0E123.4 ..6789ABCD0E1234.5 ..789ABCD0E12346 ",
        "..89ABCD0E123456. ..9ABCD0E1234567",
    ].concat();
    let board = Board::from_str(&input).unwrap();
    let display = board.display();
    println!("{display}");
    for illegal in ['C', 'D', 'E', 'F'] {
        assert!(!display.contains(illegal));
    }
    let output = String::from(&board);
    assert_eq!(
        input
            .to_ascii_uppercase()
            .replace(&[' ', 'C', 'D', 'E', 'F'], "."),
        output
    );
}

#[test]
fn print_16x16_board() {
    let input = [
        "1..A..B..C..D..E..F..0..2..3..4..5..6..7..8..9.. ",
        ".23456789ABCDEF01 ..3456789ABCDEF01.2 ..456789ABC",
        "DEF012.3 ..56789ABCDEF0123.4 ..6789ABCDEF01234.5 ",
        "..789ABCDEF012345.6 ..89ABCDEF0123456.7 ..9ABCDEF",
        "01234567.8 ..ABCDEF012345678.9 ..BCDEF0123456789.",
        "A ..CDEF012",
    ].concat();
    let board = Board::from_str(&input).unwrap();
    println!("{}", board.display());
    let output = String::from(&board);
    assert_eq!(input.replace(' ', ".").to_ascii_uppercase(), output);
}

#[test]
fn parse_invalid() {
    assert_eq!(
        Board::from_str("invalid string"),
        Err(ParseError::InvalidLength(14))
    );
    assert_eq!(Board::from_str("1234"), Err(ParseError::InvalidSize(2)));
}

#[test]
fn parse_strips_line_endings() {
    let with_lines = "12..\n..1.\r\n....\n...4";
    let flat = "12....1........4";
    assert_eq!(
        Board::from_str(with_lines).unwrap().export(),
        Board::from_str(flat).unwrap().export()
    );
}

#[test]
fn export_round_trip() {
    let input = "53..7....6..195....98....6.8...6...34..8.3..17...2...6.6....28....419..5....8..79";
    let board = Board::from_str(&input).unwrap();
    assert_eq!(board.export(), input);
}

#[test]
fn display_4x4_exact() {
    let board = Board::from_str("1.........3....4").unwrap();
    let expected = [
        "1 . ║ . .\n",
        ". . ║ . .\n",
        "════╬════\n",
        ". . ║ 3 .\n",
        ". . ║ . 4 \n",
    ].concat();
    assert_eq!(board.display(), expected);
}

#[test]
fn display_irregular_exact() {
    let mut board = Board::from_str("1...............").unwrap();
    board.kind = BoardKind::Irregular {
        map: IrregularMap::new(vec![
            vec![0, 0, 1, 1],
            vec![0, 1, 1, 3],
            vec![0, 2, 2, 3],
            vec![2, 2, 3, 3],
        ])
        .unwrap(),
    };
    let display = board.display();
    let first_line = display.lines().next().unwrap();
    assert_eq!(first_line, "1┆1 │ .┆1 │ .┆2 │ .┆2");
    assert_eq!(display.lines().nth(1).unwrap(), "────┼─────┼─────┼────");
}

#[test]
fn each_character_is_one_cell() {
    let s = format!("é2{}", ".".repeat(14));
    let b = Board::from_str(&s).unwrap();
    assert_eq!(b.size, BoardSize::X4);
    assert_eq!(b.get_cell(Coord { row: 0, col: 1 }), Some(&Cell::Value(1)));
    assert!(b.get_cell(Coord { row: 0, col: 0 }).unwrap().is_notes());
    assert!(b.get_cell(Coord { row: 0, col: 2 }).unwrap().is_notes());
}

#[test]
fn parsed_board_exports_and_reads_back() {
    let s = format!("1x3.{}", ".".repeat(12));
    let b = Board::from_str(&s).unwrap();
    let t = b.export();
    assert_eq!(t.chars().count(), 16);
    assert!(t.chars().all(|c| c == '.' || ('1'..='4').contains(&c)));
    assert_eq!(Board::from_str(&t).unwrap(), b);
}

#[test]
fn string_from_matches_export() {
    let input = "1.3...2.....4..1";
    let board = Board::from_str(input).unwrap();
    assert!(board.can_export());
    assert_eq!(String::from(&board), board.export());
    assert_eq!(String::from(&board), input);
}

#[test]
fn string_from_value_without_digit_is_empty() {
    let mut board = Board::from_str("1.3...2.....4..1").unwrap();
    board.grid[0][0] = Cell::Value(15);
    assert!(!board.can_export());
    assert_eq!(String::from(&board), "");
}

#[test]
fn string_from_short_grid_is_empty() {
    let mut board = Board::from_str("1.3...2.....4..1").unwrap();
    board.grid.pop();
    assert!(!board.can_export());
    assert_eq!(String::from(&board), "");
}
