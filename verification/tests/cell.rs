use std::collections::HashSet;

use sudoku_gen::{Cardinal, Cell, Coord, CoordWalker};

#[test]
fn no_notes() {
    let cell = Cell::Value(5);
    assert!(cell.get_notes().is_none());
    assert!(cell.get_value().is_some());
}

#[test]
fn is_none() {
    let cell = Cell::Notes(HashSet::new());
    assert!(cell.get_value().is_none());
    assert!(cell.get_notes().is_some());
}

#[test]
fn is_value() {
    let cell = Cell::Value(5);
    assert!(cell.is_value());
    assert!(!cell.is_notes());
}

#[test]
fn is_notes() {
    let cell = Cell::Notes(HashSet::from_iter([1, 2, 3]));
    assert!(cell.is_notes());
    assert!(!cell.is_value());
}

#[test]
fn display_coord() {
    let coord = Coord { row: 3, col: 5 };
    assert_eq!(coord.display(), "(3, 5)");
}

#[test]
fn display_coord_large() {
    let coord = Coord { row: 120, col: 0 };
    assert_eq!(coord.display(), "(120, 0)");
}

#[test]
fn cardinal_next_north() {
    let coord = Coord { row: 1, col: 1 };
    let max_index = 8;
    let north = Cardinal::North.next(coord, max_index);
    assert_eq!(north, Some(Coord { row: 0, col: 1 }));
    assert_eq!(Cardinal::North.next(Coord { row: 0, col: 1 }, max_index), None);
    assert_eq!(Cardinal::East.next(Coord { row: 0, col: 8 }, max_index), None);
}

#[test]
fn cardinal_neighbors() {
    let coord = Coord { row: 1, col: 1 };
    let max_index = 8;
    let neighbors = Cardinal::get_neighbors(max_index, coord);
    assert_eq!(
        neighbors,
        vec![
            Coord { row: 0, col: 1 },
            Coord { row: 1, col: 2 },
            Coord { row: 2, col: 1 },
            Coord { row: 1, col: 0 },
        ]
    );
    let corner = Cardinal::get_neighbors(max_index, Coord { row: 0, col: 0 });
    assert_eq!(corner, vec![Coord { row: 0, col: 1 }, Coord { row: 1, col: 0 }]);
}

#[test]
fn walker_south() {
    let start = Coord { row: 4, col: 4 };
    let mut walker = CoordWalker::new(start, Cardinal::South, 8);
    let mut path = Vec::new();
    while let Some(c) = walker.next() {
        path.push(c);
    }
    assert_eq!(
        path,
        vec![
            Coord { row: 5, col: 4 },
            Coord { row: 6, col: 4 },
            Coord { row: 7, col: 4 },
            Coord { row: 8, col: 4 },
        ]
    );
}

#[test]
fn cell_clone_keeps_notes() {
    let cell = Cell::Notes(HashSet::from_iter([0, 4, 7]));
    assert_eq!(cell.clone(), cell);
}
