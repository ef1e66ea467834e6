//! Cells and coordinates of a Sudoku board.
use std::collections::HashSet;
use vstd::prelude::*;
use vstd::std_specs::iter::IteratorSpec;

verus! {

broadcast use vstd::std_specs::hash::group_hash_axioms;

/// A coordinate on a Sudoku board.
///
/// Both `row` and `col` use a zero-based index.
#[derive(Debug, Default, Clone, Copy, PartialEq, Eq, Structural, Hash, PartialOrd, Ord)]
pub struct Coord {
    /// The row of the coordinate (0 based count).
    pub row: usize,
    /// The column of the coordinate (0 based count).
    pub col: usize,
}

/// The mathematical content of a [`Cell`].
pub enum CellView {
    /// A filled cell.
    Value(u8),
    /// An empty cell with its candidates.
    Notes(Set<u8>),
}

/// A cell in a Sudoku board.
#[derive(Debug, PartialEq, Eq)]
pub enum Cell {
    /// The value of an filled cell.
    Value(u8),
    /// The notes for an empty cell.
    ///
    /// These are the possible candidates that could go in the [`Cell::Value`].
    Notes(HashSet<u8>),
}

impl View for Cell {
    type V = CellView;

    open spec fn view(&self) -> CellView {
        match self {
            Cell::Value(v) => CellView::Value(*v),
            Cell::Notes(n) => CellView::Notes(n@),
        }
    }
}

/// The verdict on one cell when it is compared with a filled cell.
pub enum ValidatedCell {
    /// The cell holds the same value.
    Dupe,
    /// The cell is empty while a solved board is expected.
    Incomplete,
    /// No problem found.
    Clear,
}

impl Cell {
    /// Compare the cell with a filled cell whose value is `dupe`.
    ///
    /// A [`Cell::Value`] equal to `dupe` is a duplicate; a [`Cell::Notes`]
    /// is incomplete when `solved` is `true`.
    pub fn is_valid(&self, dupe: u8, solved: bool) -> (r: ValidatedCell)
        ensures
            r is Dupe <==> (self@ matches CellView::Value(v) && v == dupe),
            r is Incomplete <==> (self@ is Notes && solved),
    {
        match self {
            Cell::Value(v) => {
                if *v == dupe {
                    ValidatedCell::Dupe
                } else {
                    ValidatedCell::Clear
                }
            },
            Cell::Notes(_) => {
                if solved {
                    ValidatedCell::Incomplete
                } else {
                    ValidatedCell::Clear
                }
            },
        }
    }

    /// Transforms a [`Cell::Notes`] (by reference) into an [`Option`].
    pub fn get_notes(&self) -> (r: Option<&HashSet<u8>>)
        ensures
            match self@ {
                CellView::Notes(n) => r matches Some(s) && s@ == n,
                CellView::Value(_) => r is None,
            },
    {
        match self {
            Cell::Notes(notes) => Some(notes),
            Cell::Value(_) => None,
        }
    }

    /// Transforms a [`Cell::Value`] into an [`Option`].
    pub fn get_value(&self) -> (r: Option<u8>)
        ensures
            match self@ {
                CellView::Value(v) => r == Some(v),
                CellView::Notes(_) => r is None,
            },
    {
        match self {
            Cell::Value(v) => Some(*v),
            Cell::Notes(_) => None,
        }
    }

    /// [`Option::is_some()`] for [`Cell::Value`].
    pub fn is_value(&self) -> (r: bool)
        ensures
            r == self@ is Value,
    {
        match self {
            Cell::Value(_) => true,
            Cell::Notes(_) => false,
        }
    }

    /// [`Option::is_some()`] for [`Cell::Notes`].
    pub fn is_notes(&self) -> (r: bool)
        ensures
            r == self@ is Notes,
    {
        match self {
            Cell::Notes(_) => true,
            Cell::Value(_) => false,
        }
    }
}

impl Clone for Cell {
    fn clone(&self) -> (r: Cell)
        ensures
            r@ == self@,
    {
        match self {
            Cell::Value(v) => Cell::Value(*v),
            Cell::Notes(n) => Cell::Notes(copy_notes(n)),
        }
    }
}

/// Copy a set of notes element by element.
pub fn copy_notes(notes: &HashSet<u8>) -> (r: HashSet<u8>)
    ensures
        r@ == notes@,
{
    let mut r: HashSet<u8> = HashSet::new();
    let ghost keys = notes.iter().remaining().unref();
    for x in it: notes.iter()
        invariant
            keys.to_set() == notes@,
            it.seq().unref() == keys,
            0 <= it.index() <= keys.len(),
            r@ == keys.take(it.index()).to_set(),
    {
        let ghost i = it.index();
        assert(i < keys.len());
        r.insert(*x);
        proof {
            assert(keys.take(i + 1) == keys.take(i).push(keys[i]));
            assert(*x == keys[i]);
            keys.take(i).lemma_push_to_set_commute(keys[i]);
        }
    }
    assert(keys.take(keys.len() as int) == keys);
    r
}

/// An enum of cardinal directions to find neighboring cells.
#[derive(Debug, Clone, Copy, PartialEq, Eq, Structural)]
pub enum Cardinal {
    North,
    East,
    South,
    West,
}

/// A one-element sequence for `Some`, the empty sequence for `None`.
pub open spec fn opt_seq(o: Option<Coord>) -> Seq<Coord> {
    match o {
        Some(c) => seq![c],
        None => Seq::empty(),
    }
}

/// The perpendicular neighbors of `coord` (north, east, south, west) that stay
/// within `[0, max_index]`.
pub open spec fn neighbor_seq(max_index: int, coord: Coord) -> Seq<Coord> {
    opt_seq(Cardinal::North.step(coord, max_index)) + opt_seq(Cardinal::East.step(coord, max_index))
        + opt_seq(Cardinal::South.step(coord, max_index)) + opt_seq(
        Cardinal::West.step(coord, max_index),
    )
}

impl Cardinal {
    /// The coordinate one step from `coord` in this direction, if it stays
    /// within `[0, max_index]` in the moving dimension.
    pub open spec fn step(self, coord: Coord, max_index: int) -> Option<Coord> {
        match self {
            Cardinal::North => if coord.row > 0 {
                Some(Coord { row: (coord.row - 1) as usize, col: coord.col })
            } else {
                None
            },
            Cardinal::East => if coord.col < max_index {
                Some(Coord { row: coord.row, col: (coord.col + 1) as usize })
            } else {
                None
            },
            Cardinal::South => if coord.row < max_index {
                Some(Coord { row: (coord.row + 1) as usize, col: coord.col })
            } else {
                None
            },
            Cardinal::West => if coord.col > 0 {
                Some(Coord { row: coord.row, col: (coord.col - 1) as usize })
            } else {
                None
            },
        }
    }

    /// Increment the given `coord` in the [`Cardinal`]'s direction.
    ///
    /// Returns None if the increment would go out of bounds.
    pub fn next(&self, coord: Coord, max_index: usize) -> (r: Option<Coord>)
        ensures
            r == self.step(coord, max_index as int),
    {
        match self {
            Cardinal::North => if coord.row > 0 {
                Some(Coord { row: coord.row - 1, col: coord.col })
            } else {
                None
            },
            Cardinal::East => if coord.col < max_index {
                Some(Coord { row: coord.row, col: coord.col + 1 })
            } else {
                None
            },
            Cardinal::South => if coord.row < max_index {
                Some(Coord { row: coord.row + 1, col: coord.col })
            } else {
                None
            },
            Cardinal::West => if coord.col > 0 {
                Some(Coord { row: coord.row, col: coord.col - 1 })
            } else {
                None
            },
        }
    }

    /// List all supported directions.
    fn list() -> (r: Vec<Cardinal>)
        ensures
            r@ == seq![Cardinal::North, Cardinal::East, Cardinal::South, Cardinal::West],
    {
        vec![Cardinal::North, Cardinal::East, Cardinal::South, Cardinal::West]
    }

    /// Get any perpendicular neighboring cell coordinates.
    pub fn get_neighbors(max_index: usize, coord: Coord) -> (r: Vec<Coord>)
        ensures
            r@ == neighbor_seq(max_index as int, coord),
    {
        let dirs = Cardinal::list();
        let ghost all = dirs@;
        let mut neighbors: Vec<Coord> = Vec::new();
        let mut i: usize = 0;
        while i < dirs.len()
            invariant
                dirs@ == all,
                all == seq![Cardinal::North, Cardinal::East, Cardinal::South, Cardinal::West],
                0 <= i <= 4,
                neighbors@ == (if i == 0 {
                    Seq::empty()
                } else if i == 1 {
                    opt_seq(Cardinal::North.step(coord, max_index as int))
                } else if i == 2 {
                    opt_seq(Cardinal::North.step(coord, max_index as int)) + opt_seq(
                        Cardinal::East.step(coord, max_index as int),
                    )
                } else if i == 3 {
                    opt_seq(Cardinal::North.step(coord, max_index as int)) + opt_seq(
                        Cardinal::East.step(coord, max_index as int),
                    ) + opt_seq(Cardinal::South.step(coord, max_index as int))
                } else {
                    neighbor_seq(max_index as int, coord)
                }),
            decreases 4 - i,
        {
            if let Some(n) = dirs[i].next(coord, max_index) {
                neighbors.push(n);
            }
            i += 1;
        }
        neighbors
    }
}

/// A walker that steps in a given direction from a starting coordinate.
pub struct CoordWalker {
    /// The starting coordinate.
    ///
    /// This coordinate is not included in the steps.
    pub origin: Coord,
    /// The direction to walk.
    pub direction: Cardinal,
    /// The maximum index for rows and columns.
    ///
    /// This is typically [`BoardSize::max_cells()`](crate::BoardSize::max_cells()) - 1.
    pub max_index: usize,
}

impl CoordWalker {
    /// Create a walker starting at `origin`.
    pub fn new(origin: Coord, direction: Cardinal, max_index: usize) -> (r: CoordWalker)
        ensures
            r.origin == origin,
            r.direction == direction,
            r.max_index == max_index,
    {
        CoordWalker { origin, direction, max_index }
    }

    /// Get the next coordinate in the [`CoordWalker::direction`].
    pub fn next(&mut self) -> (r: Option<Coord>)
        ensures
            r == old(self).direction.step(old(self).origin, old(self).max_index as int),
            final(self).direction == old(self).direction,
            final(self).max_index == old(self).max_index,
            final(self).origin == (match r {
                Some(c) => c,
                None => old(self).origin,
            }),
    {
        if let Some(next_coord) = self.direction.next(self.origin, self.max_index) {
            self.origin = next_coord;
            Some(next_coord)
        } else {
            None
        }
    }
}

/// The neighbors of a cell within `[0, max_index]` stay within it.
pub proof fn lemma_neighbor_in_grid(max_index: int, c: Coord, k: int)
    requires
        0 <= k < neighbor_seq(max_index, c).len(),
        c.row <= max_index,
        c.col <= max_index,
    ensures
        neighbor_seq(max_index, c)[k].row <= max_index,
        neighbor_seq(max_index, c)[k].col <= max_index,
{
    let a = opt_seq(Cardinal::North.step(c, max_index));
    let b = opt_seq(Cardinal::East.step(c, max_index));
    let d = opt_seq(Cardinal::South.step(c, max_index));
    let e = opt_seq(Cardinal::West.step(c, max_index));
    let s = neighbor_seq(max_index, c);
    assert(s == a + b + d + e);
    let x = s[k];
    if k < a.len() {
        assert(x == a[k]);
    } else if k < a.len() + b.len() {
        assert(x == b[k - a.len()]);
    } else if k < a.len() + b.len() + d.len() {
        assert(x == d[k - a.len() - b.len()]);
    } else {
        assert(x == e[k - a.len() - b.len() - d.len()]);
    }
}

} // verus!
