use std::collections::HashSet;

use sudoku_gen::region_notes::{LockedCandidate, RegionNotes};
use sudoku_gen::{
    Board, BoardSize, Cell, Coord, Difficulty, HiddenSets, HiddenSingles, LineKind,
    NakedSingles, RegionKind, RegionLineReduction, Strategy,
};

fn notes(values: &[u8]) -> Cell {
    Cell::Notes(HashSet::from_iter(values.iter().copied()))
}

#[test]
fn naked_single_is_filled() {
    let mut board = Board::new(&BoardSize::X4, RegionKind::Regular);
    board.set_cell(Coord { row: 0, col: 0 }, 0);
    board.set_cell(Coord { row: 0, col: 1 }, 1);
    board.set_cell(Coord { row: 2, col: 2 }, 2);
    // (0, 2) can only hold 3 now
    assert_eq!(board.grid[0][2], notes(&[3]));
    assert!(NakedSingles::apply(&mut board));
    assert_eq!(board.grid[0][2], Cell::Value(3));
    assert_eq!(board.grid[0][3], Cell::Value(2));
    // nothing left to do
    let before = board.clone();
    assert!(!NakedSingles::apply(&mut board));
    assert_eq!(board, before);
}

#[test]
fn hidden_single_is_filled() {
    let mut board = Board::new(&BoardSize::X4, RegionKind::Regular);
    // 0 can only go in (0, 3) within row 0
    board.grid[0][0] = notes(&[1, 2]);
    board.grid[0][1] = notes(&[1, 2, 3]);
    board.grid[0][2] = notes(&[2, 3]);
    assert!(HiddenSingles::apply(&mut board));
    assert_eq!(board.grid[0][3], Cell::Value(0));
    assert!(!board.grid[1][3].get_notes().unwrap().contains(&0));
}

#[test]
fn line_candidates_map() {
    let mut board = Board::new(&BoardSize::X4, RegionKind::Regular);
    board.grid[1][0] = notes(&[0, 1]);
    board.grid[1][1] = Cell::Value(2);
    board.grid[1][2] = notes(&[1, 3]);
    board.grid[1][3] = notes(&[3]);
    let map = LineKind::Row(1).map_notes_to_coords(&board);
    assert_eq!(map.len(), 3);
    assert_eq!(map[&0], vec![Coord { row: 1, col: 0 }]);
    assert_eq!(map[&1], vec![Coord { row: 1, col: 0 }, Coord { row: 1, col: 2 }]);
    assert_eq!(map[&3], vec![Coord { row: 1, col: 2 }, Coord { row: 1, col: 3 }]);
}

#[test]
fn hidden_pair_is_found_and_applied() {
    let mut board = Board::new(&BoardSize::X4, RegionKind::Regular);
    // in row 0, candidates 0 and 1 only appear in (0, 0) and (0, 1)
    board.grid[0][0] = notes(&[0, 1, 2]);
    board.grid[0][1] = notes(&[0, 1, 3]);
    board.grid[0][2] = notes(&[2, 3]);
    board.grid[0][3] = notes(&[2, 3]);
    let shared = LineKind::Row(0).find_cells_with_shared_candidates(&board);
    assert!(shared.contains(&(vec![0, 1], vec![Coord { row: 0, col: 0 }, Coord { row: 0, col: 1 }])));
    assert!(HiddenSets::apply(&mut board));
    assert_eq!(board.grid[0][0], notes(&[0, 1]));
    assert_eq!(board.grid[0][1], notes(&[0, 1]));
    // both cells lie in region 0: its other cells lose 0 and 1
    assert_eq!(board.grid[1][0], notes(&[2, 3]));
    assert_eq!(board.grid[1][1], notes(&[2, 3]));
}

#[test]
fn region_notes_singles_and_locked() {
    let mut board = Board::new(&BoardSize::X4, RegionKind::Regular);
    board.grid[0][0] = notes(&[0, 1]);
    board.grid[0][1] = notes(&[1, 2]);
    board.grid[1][0] = notes(&[2, 3]);
    board.grid[1][1] = notes(&[2, 3]);
    let mut region_notes = RegionNotes::new();
    region_notes.scan(&board, 0);
    assert_eq!(region_notes.find_singles(), vec![(Coord { row: 0, col: 0 }, 0)]);
    let locked = region_notes.find_locked_candidates();
    // 0 sits in (0, 0) only; 1 in row 0; 3 in row 1
    assert!(locked.contains(&LockedCandidate::Row(0, 0)));
    assert!(locked.contains(&LockedCandidate::Column(0, 0)));
    assert!(locked.contains(&LockedCandidate::Row(1, 0)));
    assert!(locked.contains(&LockedCandidate::Row(3, 1)));
}

#[test]
fn region_line_reduction_removes_pointing_candidates() {
    let mut board = Board::new(&BoardSize::X4, RegionKind::Regular);
    // in region 0, candidate 3 is confined to row 1
    board.grid[0][0] = notes(&[0, 1]);
    board.grid[0][1] = notes(&[0, 1, 2]);
    board.grid[1][0] = notes(&[0, 2, 3]);
    board.grid[1][1] = notes(&[1, 2, 3]);
    // no cell is set, so it reports `false`, but candidates were removed
    assert!(!RegionLineReduction::apply(&mut board));
    assert!(!board.grid[1][2].get_notes().unwrap().contains(&3));
    assert!(!board.grid[1][3].get_notes().unwrap().contains(&3));
}

#[test]
fn difficulty_names() {
    assert_eq!(Difficulty::Easy.as_str(), "Easy");
    assert_eq!(Difficulty::Expert.as_str(), "Expert");
    assert_eq!("MEDIUM".parse::<Difficulty>(), Ok(Difficulty::Medium));
    assert_eq!("hard".parse::<Difficulty>(), Ok(Difficulty::Hard));
    assert_eq!("anything".parse::<Difficulty>(), Ok(Difficulty::Easy));
    assert_eq!(Difficulty::from_name("eXpErT"), Difficulty::Expert);
    assert!(Difficulty::Easy < Difficulty::Medium);
    assert_eq!(Difficulty::Hard.rank(), 2);
}

#[test]
fn difficulty_name_round_trip() {
    for d in [Difficulty::Easy, Difficulty::Medium, Difficulty::Hard, Difficulty::Expert] {
        assert_eq!(Difficulty::from_name(d.as_str()), d);
    }
}

#[test]
fn make_puzzle_keeps_solution_values() {
    let mut solution = Board::new(&BoardSize::X4, RegionKind::Regular);
    assert!(solution.generate());
    let puzzle = Difficulty::Easy.make_puzzle(&solution);
    let mut clues = 0;
    for row in 0..4 {
        for col in 0..4 {
            if let Cell::Value(v) = puzzle.grid[row][col] {
                assert_eq!(solution.grid[row][col], Cell::Value(v));
                clues += 1;
            }
        }
    }
    // at least 21% of the 16 cells
    assert!(clues >= 3);
}

/// Every value of `solution` (a digit string) still fits its cell of `board`:
/// a filled cell holds it, an empty cell keeps it as a candidate.
fn fits(board: &Board, solution: &str) -> bool {
    let digits: Vec<u8> = solution.bytes().map(|b| b - b'1').collect();
    for row in 0..9 {
        for col in 0..9 {
            let v = digits[row * 9 + col];
            let ok = match &board.grid[row][col] {
                Cell::Value(x) => *x == v,
                Cell::Notes(n) => n.contains(&v),
            };
            if !ok {
                return false;
            }
        }
    }
    true
}

#[test]
fn strategies_keep_the_solution() {
    let puzzle = [
        "53..7....",
        "6..195...",
        ".98....6.",
        "8...6...3",
        "4..8.3..1",
        "7...2...6",
        ".6....28.",
        "...419..5",
        "....8..79",
    ]
    .concat();
    let solution = "534678912672195348198342567859761423426853791713924856961537284287419635345286179";
    let mut board = Board::from_str(&puzzle).unwrap();
    assert!(fits(&board, solution));
    RegionLineReduction::apply(&mut board);
    assert!(fits(&board, solution));
    HiddenSingles::apply(&mut board);
    assert!(fits(&board, solution));
    NakedSingles::apply(&mut board);
    assert!(fits(&board, solution));
    HiddenSets::apply(&mut board);
    assert!(fits(&board, solution));
}

#[test]
fn strategies_leave_a_fresh_board_alone() {
    // every cell notes every candidate: no single, no pointing candidate,
    // and the only hidden set of a line is the whole line, which removes nothing
    let fresh = Board::new(&BoardSize::X4, RegionKind::Regular);
    let mut board = fresh.clone();
    assert!(!NakedSingles::apply(&mut board));
    assert!(!HiddenSingles::apply(&mut board));
    assert!(!RegionLineReduction::apply(&mut board));
    assert!(!HiddenSets::apply(&mut board));
    assert_eq!(board, fresh);
}

#[test]
fn region_line_reduction_reports_set_cells() {
    let mut board = Board::new(&BoardSize::X4, RegionKind::Regular);
    // in region 0, candidate 3 is only noted at (1, 1)
    board.grid[0][0] = notes(&[0, 1]);
    board.grid[0][1] = notes(&[0, 1, 2]);
    board.grid[1][0] = notes(&[0, 1, 2]);
    board.grid[1][1] = notes(&[1, 2, 3]);
    assert!(RegionLineReduction::apply(&mut board));
    assert_eq!(board.grid[1][1], Cell::Value(3));
}

#[test]
fn make_puzzle_report_counts_rounds_and_clues() {
    let mut solution = Board::new(&BoardSize::X4, RegionKind::Regular);
    assert!(solution.generate());
    let (puzzle, rounds, clues) = Difficulty::Medium.make_puzzle_report(&solution);
    assert!(rounds >= 1);
    assert!(rounds + clues <= 17);
    assert!(clues >= 16 * 21 / 100);
    let filled = (0..4)
        .flat_map(|r| (0..4).map(move |c| (r, c)))
        .filter(|&(r, c)| puzzle.grid[r][c].is_value())
        .count();
    assert_eq!(filled, clues);
}

#[test]
fn region_line_reduction_sets_singles_and_removes_pointing_candidates() {
    let mut board = Board::new(&BoardSize::X4, RegionKind::Regular);
    // in region 0, candidate 3 is only noted at (1, 1), and candidate 2 only
    // in row 1
    board.grid[0][0] = notes(&[0, 1]);
    board.grid[0][1] = notes(&[0, 1]);
    board.grid[1][0] = notes(&[2]);
    board.grid[1][1] = notes(&[2, 3]);
    assert!(RegionLineReduction::apply(&mut board));
    assert_eq!(board.grid[1][1], Cell::Value(3));
    assert!(!board.grid[1][2].get_notes().unwrap().contains(&2));
    assert!(!board.grid[1][3].get_notes().unwrap().contains(&2));
}
