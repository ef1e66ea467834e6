use sudoku_gen::game_view::loading_look;
use sudoku_gen::{Board, BoardSize, Coord, RegionKind};

#[test]
fn cell_look_shows_values_from_one_and_region_edges() {
    let mut board = Board::new(&BoardSize::X4, RegionKind::Regular);
    board.set_cell(Coord { row: 0, col: 1 }, 3);
    let look = board.cell_look(Coord { row: 0, col: 1 });
    assert_eq!(look.text, "4");
    assert_eq!(look.region, 0);
    assert!(look.top);
    assert!(!look.bottom);
    assert!(!look.left);
    assert!(look.right);
    let empty = board.cell_look(Coord { row: 1, col: 1 });
    assert_eq!(empty.text, "");
    assert!(!empty.top);
    assert!(empty.bottom);
}

#[test]
fn cell_look_on_a_large_board_uses_two_digits() {
    let mut board = Board::new(&BoardSize::X16, RegionKind::Regular);
    board.set_cell(Coord { row: 5, col: 5 }, 15);
    assert_eq!(board.cell_look(Coord { row: 5, col: 5 }).text, "16");
}

#[test]
fn loading_grid_draws_only_inner_lines() {
    let corner = loading_look(0);
    assert_eq!((corner.x, corner.y), (0, 0));
    assert!(!corner.top && corner.bottom && !corner.left && corner.right);
    let middle = loading_look(4);
    assert_eq!((middle.x, middle.y), (1, 1));
    assert!(middle.top && middle.bottom && middle.left && middle.right);
    let last = loading_look(8);
    assert_eq!((last.x, last.y), (2, 2));
    assert!(last.top && !last.bottom && last.left && !last.right);
}
