//! The Sudoku board and the operations that keep its notes up to date.
use std::collections::HashSet;
use crate::cell::{Cell, CellView, Coord};
use crate::region::{in_grid, valid_map, BoardKind};
use crate::size::BoardSize;
use vstd::prelude::*;

verus! {

broadcast use vstd::std_specs::hash::group_hash_axioms;

/// The content of every cell of a grid, row by row.
pub open spec fn grid_view(grid: Vec<Vec<Cell>>) -> Seq<Seq<CellView>> {
    grid@.map_values(|row: Vec<Cell>| row@.map_values(|c: Cell| c@))
}

/// `cell` without the candidate `v` (a filled cell is unchanged).
pub open spec fn strip(cell: CellView, v: u8) -> CellView {
    match cell {
        CellView::Notes(s) => CellView::Notes(s.remove(v)),
        CellView::Value(x) => CellView::Value(x),
    }
}

/// `cell` with the candidate `v` added (a filled cell is unchanged).
pub open spec fn with_note(cell: CellView, v: u8) -> CellView {
    match cell {
        CellView::Notes(s) => CellView::Notes(s.insert(v)),
        CellView::Value(x) => CellView::Value(x),
    }
}

/// Removing a candidate twice is removing it once.
pub proof fn lemma_strip_idem(x: CellView, v: u8)
    ensures
        strip(strip(x, v), v) == strip(x, v),
{
    if let CellView::Notes(s) = x {
        assert(s.remove(v).remove(v) =~= s.remove(v));
    }
}

/// Adding a candidate twice is adding it once.
pub proof fn lemma_with_note_idem(x: CellView, v: u8)
    ensures
        with_note(with_note(x, v), v) == with_note(x, v),
{
    if let CellView::Notes(s) = x {
        assert(s.insert(v).insert(v) =~= s.insert(v));
    }
}

/// Whether `x` occurs in `v`.
pub fn vec_has(v: &Vec<u8>, x: u8) -> (r: bool)
    ensures
        r == v@.contains(x),
{
    let mut i: usize = 0;
    while i < v.len()
        invariant
            0 <= i <= v.len(),
            forall|k: int| 0 <= k < i ==> v@[k] != x,
        decreases v.len() - i,
    {
        if v[i] == x {
            return true;
        }
        i += 1;
    }
    false
}

/// Whether `x` occurs in `v`.
pub fn vec_has_coord(v: &Vec<Coord>, x: Coord) -> (r: bool)
    ensures
        r == v@.contains(x),
{
    let mut i: usize = 0;
    while i < v.len()
        invariant
            0 <= i <= v.len(),
            forall|k: int| 0 <= k < i ==> v@[k] != x,
        decreases v.len() - i,
    {
        if v[i] == x {
            return true;
        }
        i += 1;
    }
    false
}

/// The candidates `0..n`.
pub open spec fn full_notes(n: nat) -> Set<u8> {
    Set::new(|v: u8| v < n)
}

/// A Sudoku board.
///
/// - Use [`Board::new()`] to create a new board of [`Cell::Notes`].
/// - Use [`Board::from_str()`] to import a board from a string.
/// - Use [`Board::export()`] to export a board to a string.
///
/// See also [`Board::generate()`], [`Board::solve()`], and [`Board::validate()`].
#[derive(Debug, Clone, PartialEq, Eq)]
pub struct Board {
    /// The size of the board.
    ///
    /// This implies maximum number of cells in a row, column, or region.
    pub size: BoardSize,
    /// The type describing the intended shape of the board's regions.
    pub kind: BoardKind,
    /// The grid of cells, row by row.
    pub grid: Vec<Vec<Cell>>,
}

impl Board {
    /// The row length.
    pub open spec fn n(&self) -> nat {
        self.size.cells()
    }

    /// The content of every cell.
    pub open spec fn cells(&self) -> Seq<Seq<CellView>> {
        grid_view(self.grid)
    }

    /// The content of the cell at `c`.
    pub open spec fn at(&self, c: Coord) -> CellView {
        self.cells()[c.row as int][c.col as int]
    }

    /// The grid is `n` x `n` and the region layout fits the board.
    pub open spec fn wf(&self) -> bool {
        &&& self.grid@.len() == self.n()
        &&& forall|i: int| 0 <= i < self.n() ==> #[trigger] self.grid@[i]@.len() == self.n()
        &&& self.kind.fits(self.size)
        &&& self.kind matches BoardKind::Irregular { map } ==> valid_map(map@)
    }

    /// `a` and `b` are distinct cells that share a row, a column or a region.
    pub open spec fn related(&self, a: Coord, b: Coord) -> bool {
        &&& a != b
        &&& in_grid(self.n(), a)
        &&& in_grid(self.n(), b)
        &&& (a.row == b.row || a.col == b.col || self.kind.region_at(self.size, a)
            == self.kind.region_at(self.size, b))
    }

    /// Two boards have the same size and region layout.
    pub open spec fn same_shape(&self, other: &Board) -> bool {
        &&& self.size == other.size
        &&& self.kind.fits(self.size) == other.kind.fits(other.size)
        &&& forall|c: Coord| #[trigger] self.kind.region_at(self.size, c) == other.kind.region_at(other.size, c)
        &&& (self.kind is Regular <==> other.kind is Regular)
        &&& (self.kind matches BoardKind::Irregular { map } ==> valid_map(map@))
            == (other.kind matches BoardKind::Irregular { map } ==> valid_map(map@))
    }

    /// The grid in the bounds of `n` as a sequence of views.
    pub proof fn lemma_view(&self)
        requires
            self.wf(),
        ensures
            self.cells().len() == self.n(),
            forall|i: int| 0 <= i < self.n() ==> #[trigger] self.cells()[i].len() == self.n(),
            forall|i: int, j: int|
                0 <= i < self.n() && 0 <= j < self.n() ==> #[trigger] self.cells()[i][j]
                    == self.grid@[i]@[j]@,
    {
    }
}

/// Read the cell at `(r, c)`.
fn cell_ref(grid: &Vec<Vec<Cell>>, r: usize, c: usize) -> (x: &Cell)
    requires
        r < grid@.len(),
        c < grid@[r as int]@.len(),
    ensures
        x@ == grid_view(*grid)[r as int][c as int],
{
    &grid[r][c]
}

/// Replace the cell at `(r, c)`.
pub(crate) fn put_cell(grid: &mut Vec<Vec<Cell>>, r: usize, c: usize, x: Cell)
    requires
        r < old(grid)@.len(),
        c < old(grid)@[r as int]@.len(),
    ensures
        grid_view(*final(grid)) == grid_view(*old(grid)).update(
            r as int,
            grid_view(*old(grid))[r as int].update(c as int, x@),
        ),
        final(grid)@.len() == old(grid)@.len(),
        forall|i: int| 0 <= i < old(grid)@.len() ==> #[trigger] final(grid)@[i]@.len() == old(grid)@[i]@.len(),
{
    let ghost g = grid_view(*old(grid));
    let ghost xv = x@;
    grid[r][c] = x;
    proof {
        assert forall|i: int| 0 <= i < grid@.len() implies #[trigger] grid_view(*grid)[i] == g.update(r as int, g[r as int].update(c as int, xv))[i] by {
            if i == r {
                assert(grid_view(*grid)[i] =~= g[r as int].update(c as int, xv));
            } else {
                assert(grid_view(*grid)[i] =~= g[i]);
            }
        }
        assert(grid_view(*grid) =~= g.update(r as int, g[r as int].update(c as int, xv)));
    }
}

/// Remove the candidate `v` from the cell at `(r, c)` (a filled cell is unchanged).
fn drop_note(grid: &mut Vec<Vec<Cell>>, r: usize, c: usize, v: u8)
    requires
        r < old(grid)@.len(),
        c < old(grid)@[r as int]@.len(),
    ensures
        grid_view(*final(grid)) == grid_view(*old(grid)).update(
            r as int,
            grid_view(*old(grid))[r as int].update(c as int, strip(grid_view(*old(grid))[r as int][c as int], v)),
        ),
        final(grid)@.len() == old(grid)@.len(),
        forall|i: int| 0 <= i < old(grid)@.len() ==> #[trigger] final(grid)@[i]@.len() == old(grid)@[i]@.len(),
{
    let ghost g = grid_view(*old(grid));
    if let Cell::Notes(notes) = &mut grid[r][c] {
        notes.remove(&v);
    }
    proof {
        let t = g.update(r as int, g[r as int].update(c as int, strip(g[r as int][c as int], v)));
        assert forall|i: int| 0 <= i < grid@.len() implies #[trigger] grid_view(*grid)[i] == t[i] by {
            if i == r {
                assert(grid_view(*grid)[i] =~= t[i]);
            } else {
                assert(grid_view(*grid)[i] =~= g[i]);
            }
        }
        assert(grid_view(*grid) =~= t);
    }
}

/// Add the candidate `v` to the cell at `(r, c)` (a filled cell is unchanged).
fn add_note(grid: &mut Vec<Vec<Cell>>, r: usize, c: usize, v: u8)
    requires
        r < old(grid)@.len(),
        c < old(grid)@[r as int]@.len(),
    ensures
        grid_view(*final(grid)) == grid_view(*old(grid)).update(
            r as int,
            grid_view(*old(grid))[r as int].update(c as int, with_note(grid_view(*old(grid))[r as int][c as int], v)),
        ),
        final(grid)@.len() == old(grid)@.len(),
        forall|i: int| 0 <= i < old(grid)@.len() ==> #[trigger] final(grid)@[i]@.len() == old(grid)@[i]@.len(),
{
    let ghost g = grid_view(*old(grid));
    if let Cell::Notes(notes) = &mut grid[r][c] {
        notes.insert(v);
    }
    proof {
        let t = g.update(r as int, g[r as int].update(c as int, with_note(g[r as int][c as int], v)));
        assert forall|i: int| 0 <= i < grid@.len() implies #[trigger] grid_view(*grid)[i] == t[i] by {
            if i == r {
                assert(grid_view(*grid)[i] =~= t[i]);
            } else {
                assert(grid_view(*grid)[i] =~= g[i]);
            }
        }
        assert(grid_view(*grid) =~= t);
    }
}

/// The full set of candidates `0..n`, built one by one.
fn full_note_set(max_cells: u8) -> (r: HashSet<u8>)
    ensures
        r@ == full_notes(max_cells as nat),
{
    let mut notes: HashSet<u8> = HashSet::new();
    let mut v: u8 = 0;
    while v < max_cells
        invariant
            0 <= v <= max_cells,
            notes@ == Set::new(|x: u8| x < v),
        decreases max_cells - v,
    {
        notes.insert(v);
        v += 1;
        assert(notes@ =~= Set::new(|x: u8| x < v));
    }
    assert(notes@ =~= full_notes(max_cells as nat));
    notes
}

impl Board {
    /// Create a board of [`Cell::Notes`] spanning [`BoardSize::max_cells()`] in
    /// both height and width; every cell starts with all candidates.
    pub fn new(size: &BoardSize, kind: BoardKind) -> (r: Board)
        ensures
            r.size == *size,
            r.kind == kind,
            r.grid@.len() == size.cells(),
            forall|i: int| 0 <= i < size.cells() ==> #[trigger] r.grid@[i]@.len() == size.cells(),
            kind.fits(*size) ==> r.wf(),
            forall|c: Coord|
                in_grid(size.cells(), c) ==> #[trigger] r.at(c) == CellView::Notes(
                    full_notes(size.cells()),
                ),
    {
        proof {
            if let BoardKind::Irregular { map } = &kind {
                use_type_invariant(map);
            }
        }
        let max_cells = size.max_cells();
        let n = max_cells as usize;
        let mut grid: Vec<Vec<Cell>> = Vec::new();
        let mut i: usize = 0;
        while i < n
            invariant
                n == size.cells(),
                max_cells as nat == n,
                0 <= i <= n,
                grid@.len() == i,
                forall|k: int| 0 <= k < i ==> #[trigger] grid@[k]@.len() == n,
                forall|k: int, j: int|
                    0 <= k < i && 0 <= j < n ==> #[trigger] grid@[k]@[j]@ == CellView::Notes(
                        full_notes(n as nat),
                    ),
            decreases n - i,
        {
            let mut row: Vec<Cell> = Vec::new();
            let mut j: usize = 0;
            while j < n
                invariant
                    n == size.cells(),
                    max_cells as nat == n,
                    0 <= j <= n,
                    row@.len() == j,
                    forall|k: int| 0 <= k < j ==> #[trigger] row@[k]@ == CellView::Notes(
                        full_notes(n as nat),
                    ),
                decreases n - j,
            {
                row.push(Cell::Notes(full_note_set(max_cells)));
                j += 1;
            }
            grid.push(row);
            i += 1;
        }
        Board { size: *size, kind, grid }
    }

    /// Get the [`Cell`] (by immutable reference) at the given `coordinate`.
    ///
    /// Returns [`None`] if the given `coord` is out of bounds.
    pub fn get_cell(&self, coord: Coord) -> (r: Option<&Cell>)
        requires
            self.wf(),
        ensures
            in_grid(self.n(), coord) ==> (r matches Some(x) && x@ == self.at(coord)),
            !in_grid(self.n(), coord) ==> r is None,
    {
        let max_cells = self.size.max_cells() as usize;
        if coord.row < max_cells && coord.col < max_cells {
            Some(cell_ref(&self.grid, coord.row, coord.col))
        } else {
            None
        }
    }

    /// The board after writing `value` at `coord` and removing it from the
    /// notes of the cells in the same row and column (when both are in bounds).
    pub open spec fn after_place_lines(&self, coord: Coord, value: u8, c: Coord) -> CellView {
        if in_grid(self.n(), coord) && value < self.n() {
            if c == coord {
                CellView::Value(value)
            } else if c.row == coord.row || c.col == coord.col {
                strip(self.at(c), value)
            } else {
                self.at(c)
            }
        } else {
            self.at(c)
        }
    }

    /// Same as [`Board::set_cell()`] but without updating the notes in the
    /// region containing the cell specified by `coord`.
    ///
    /// Only useful for seeding a board with known valid values in 1 region.
    pub(crate) fn set_cell_unchecked_grid(&mut self, coord: Coord, value: u8)
        requires
            old(self).wf(),
        ensures
            final(self).wf(),
            final(self).size == old(self).size,
            final(self).kind == old(self).kind,
            forall|c: Coord|
                in_grid(old(self).n(), c) ==> #[trigger] final(self).at(c) == old(self).after_place_lines(coord, value, c),
    {
        let max_cells = self.size.max_cells() as usize;
        let ghost n = self.n();
        if coord.row < max_cells && coord.col < max_cells && value < max_cells as u8 {
            let ghost start = *old(self);
            put_cell(&mut self.grid, coord.row, coord.col, Cell::Value(value));
            let ghost mid = *self;
            let mut col: usize = 0;
            while col < max_cells
                invariant
                    max_cells == n,
                    n == start.n(),
                    coord.row < n,
                    coord.col < n,
                    value < n,
                    self.size == start.size,
                    self.kind == start.kind,
                    self.wf(),
                    0 <= col <= n,
                    forall|c: Coord|
                        in_grid(n, c) ==> #[trigger] self.at(c) == if c.row == coord.row && c.col < col {
                            strip(mid.at(c), value)
                        } else {
                            mid.at(c)
                        },
                decreases n - col,
            {
                let ghost before = *self;
                drop_note(&mut self.grid, coord.row, col, value);
                proof {
                    assert forall|c: Coord| in_grid(n, c) implies #[trigger] self.at(c) == if c.row
                        == coord.row && c.col < col + 1 {
                        strip(mid.at(c), value)
                    } else {
                        mid.at(c)
                    } by {
                        assert(before.at(c) == if c.row == coord.row && c.col < col {
                            strip(mid.at(c), value)
                        } else {
                            mid.at(c)
                        });
                    }
                }
                col += 1;
            }
            let ghost mid2 = *self;
            let mut row: usize = 0;
            while row < max_cells
                invariant
                    max_cells == n,
                    n == start.n(),
                    coord.row < n,
                    coord.col < n,
                    value < n,
                    self.size == start.size,
                    self.kind == start.kind,
                    self.wf(),
                    0 <= row <= n,
                    forall|c: Coord|
                        in_grid(n, c) ==> #[trigger] self.at(c) == if c.col == coord.col && c.row < row {
                            strip(mid2.at(c), value)
                        } else {
                            mid2.at(c)
                        },
                decreases n - row,
            {
                let ghost before = *self;
                drop_note(&mut self.grid, row, coord.col, value);
                proof {
                    assert forall|c: Coord| in_grid(n, c) implies #[trigger] self.at(c) == if c.col
                        == coord.col && c.row < row + 1 {
                        strip(mid2.at(c), value)
                    } else {
                        mid2.at(c)
                    } by {
                        assert(before.at(c) == if c.col == coord.col && c.row < row {
                            strip(mid2.at(c), value)
                        } else {
                            mid2.at(c)
                        });
                    }
                }
                row += 1;
            }
            proof {
                assert forall|c: Coord| in_grid(n, c) implies #[trigger] self.at(c) == start.after_place_lines(coord, value, c) by {
                    assert(mid.at(c) == (if c == coord { CellView::Value(value) } else { start.at(c) }));
                }
            }
        }
    }
}

impl Board {
    /// The board after [`Board::set_cell()`]: the value is written and removed
    /// from the notes of its row, column (when both are in bounds) and region
    /// (when the coordinate is in bounds).
    pub open spec fn after_set(&self, coord: Coord, value: u8, c: Coord) -> CellView {
        let base = self.after_place_lines(coord, value, c);
        if in_grid(self.n(), coord) && c != coord && self.kind.region_at(self.size, c)
            == self.kind.region_at(self.size, coord) {
            strip(base, value)
        } else {
            base
        }
    }

    /// Set the value of a cell at the given row and column.
    ///
    /// The `value` must be in range [`0`, [`BoardSize::max_cells()`]).
    /// If the `value` or the `coord` are out of bounds, then no cell is filled.
    ///
    /// This also updates the [`Cell::Notes`] of the affected cells in the same
    /// row and column and siblings of the cell's region.
    pub fn set_cell(&mut self, coord: Coord, value: u8)
        requires
            old(self).wf(),
        ensures
            final(self).wf(),
            final(self).size == old(self).size,
            final(self).kind == old(self).kind,
            forall|c: Coord|
                in_grid(old(self).n(), c) ==> #[trigger] final(self).at(c) == old(self).after_set(
                    coord,
                    value,
                    c,
                ),
    {
        let ghost start = *old(self);
        let ghost n = self.n();
        self.set_cell_unchecked_grid(coord, value);
        let ghost mid = *self;
        let siblings = self.kind.siblings(&self.size, coord);
        proof {
            if let BoardKind::Irregular { map } = &self.kind {
                use_type_invariant(map);
            }
            self.kind.lemma_balanced(self.size);
            if in_grid(n, coord) {
                self.kind.lemma_sibling_seq(self.size, coord);
            }
        }
        let mut k: usize = 0;
        while k < siblings.len()
            invariant
                self.wf(),
                self.size == start.size,
                self.kind == start.kind,
                n == start.n(),
                siblings@ == start.kind.sibling_seq(start.size, coord),
                in_grid(n, coord) ==> forall|c: Coord| #[trigger]
                    siblings@.contains(c) <==> (in_grid(n, c) && start.kind.region_at(start.size, c)
                        == start.kind.region_at(start.size, coord) && c != coord),
                !in_grid(n, coord) ==> siblings@.len() == 0,
                0 <= k <= siblings.len(),
                forall|c: Coord|
                    in_grid(n, c) ==> #[trigger] self.at(c) == if siblings@.take(k as int).contains(c) {
                        strip(mid.at(c), value)
                    } else {
                        mid.at(c)
                    },
            decreases siblings.len() - k,
        {
            let sibling = siblings[k];
            assert(siblings@.contains(sibling));
            let ghost before = *self;
            drop_note(&mut self.grid, sibling.row, sibling.col, value);
            proof {
                assert forall|c: Coord| in_grid(n, c) implies #[trigger] self.at(c) == if siblings@.take(
                    k + 1,
                ).contains(c) {
                    strip(mid.at(c), value)
                } else {
                    mid.at(c)
                } by {
                    assert(before.at(c) == if siblings@.take(k as int).contains(c) {
                        strip(mid.at(c), value)
                    } else {
                        mid.at(c)
                    });
                    assert(siblings@.take(k + 1) == siblings@.take(k as int).push(sibling));
                    if siblings@.take(k as int).contains(c) {
                        assert(siblings@.take(k + 1).contains(c));
                    }
                    if c == sibling {
                        assert(siblings@.take(k + 1)[k as int] == c);
                        lemma_strip_idem(mid.at(c), value);
                    } else {
                        if siblings@.take(k + 1).contains(c) {
                            let t = siblings@.take(k + 1);
                            let i = choose|i: int| 0 <= i < t.len() && #[trigger] t[i] == c;
                            assert(i < k);
                            assert(siblings@.take(k as int)[i] == c);
                        }
                    }
                }
            }
            k += 1;
        }
        proof {
            assert(siblings@.take(siblings@.len() as int) == siblings@);
        }
    }

    /// Set a note in the cell at the given coordinate.
    ///
    /// This function does nothing if the specified cell is not a
    /// [`Cell::Notes`], or if the `coord` or the `note` is out of bounds.
    pub fn set_note(&mut self, coord: Coord, note: u8)
        requires
            old(self).wf(),
        ensures
            final(self).wf(),
            final(self).size == old(self).size,
            final(self).kind == old(self).kind,
            forall|c: Coord|
                in_grid(old(self).n(), c) ==> #[trigger] final(self).at(c) == if c == coord && note
                    < old(self).n() {
                    with_note(old(self).at(c), note)
                } else {
                    old(self).at(c)
                },
    {
        let max_cells = self.size.max_cells() as usize;
        if coord.row < max_cells && coord.col < max_cells && note < max_cells as u8 {
            add_note(&mut self.grid, coord.row, coord.col, note);
        }
    }

    /// Clear a note from the cell at the given coordinate.
    ///
    /// This function does nothing if the specified cell is not a
    /// [`Cell::Notes`], or if the `coord` or the `note` is out of bounds.
    pub fn clear_note(&mut self, coord: Coord, note: u8)
        requires
            old(self).wf(),
        ensures
            final(self).wf(),
            final(self).size == old(self).size,
            final(self).kind == old(self).kind,
            forall|c: Coord|
                in_grid(old(self).n(), c) ==> #[trigger] final(self).at(c) == if c == coord && note
                    < old(self).n() {
                    strip(old(self).at(c), note)
                } else {
                    old(self).at(c)
                },
    {
        let max_cells = self.size.max_cells() as usize;
        if coord.row < max_cells && coord.col < max_cells && note < max_cells as u8 {
            drop_note(&mut self.grid, coord.row, coord.col, note);
        }
    }
}

impl Board {
    /// Some cell related to `coord` holds the value `x`.
    pub open spec fn seen_value(&self, coord: Coord, x: u8) -> bool {
        exists|c: Coord| #[trigger] self.related(coord, c) && self.at(c) == CellView::Value(x)
    }

    /// The board after [`Board::clear_cell()`].
    pub open spec fn after_clear(&self, coord: Coord, c: Coord) -> CellView {
        if in_grid(self.n(), coord) && self.at(coord) is Value {
            let value = self.at(coord)->Value_0;
            if c == coord {
                CellView::Notes(Set::new(|x: u8| x < self.n() && !self.seen_value(coord, x)))
            } else if self.related(coord, c) {
                with_note(self.at(c), value)
            } else {
                self.at(c)
            }
        } else {
            self.at(c)
        }
    }

    /// One step of [`Board::clear_cell()`]: give the related cell `at` the
    /// candidate `value` back, or record its value as not possible.
    fn clear_visit(
        &mut self,
        at: Coord,
        value: u8,
        not_possible: &mut Vec<u8>,
        Ghost(coord): Ghost<Coord>,
        Ghost(start): Ghost<Board>,
        Ghost(done): Ghost<Set<Coord>>,
    )
        requires
            old(self).wf(),
            old(self).size == start.size,
            old(self).kind == start.kind,
            start.wf(),
            start.related(coord, at),
            start.at(coord) == CellView::Value(value),
            forall|c: Coord| #[trigger] done.contains(c) ==> start.related(coord, c),
            forall|c: Coord|
                in_grid(start.n(), c) ==> #[trigger] old(self).at(c) == if c == coord {
                    CellView::Notes(set![value])
                } else if done.contains(c) {
                    with_note(start.at(c), value)
                } else {
                    start.at(c)
                },
            forall|x: u8|
                #![trigger old(not_possible)@.contains(x)]
                old(not_possible)@.contains(x) <==> exists|c: Coord| #[trigger]
                    done.contains(c) && start.at(c) == CellView::Value(x),
        ensures
            final(self).wf(),
            final(self).size == start.size,
            final(self).kind == start.kind,
            forall|c: Coord|
                in_grid(start.n(), c) ==> #[trigger] final(self).at(c) == if c == coord {
                    CellView::Notes(set![value])
                } else if done.insert(at).contains(c) {
                    with_note(start.at(c), value)
                } else {
                    start.at(c)
                },
            forall|x: u8|
                #![trigger final(not_possible)@.contains(x)]
                final(not_possible)@.contains(x) <==> exists|c: Coord| #[trigger]
                    done.insert(at).contains(c) && start.at(c) == CellView::Value(x),
    {
        let ghost before = *self;
        let ghost np0 = not_possible@;
        assert(self.at(at) == if done.contains(at) {
            with_note(start.at(at), value)
        } else {
            start.at(at)
        });
        let cell = cell_ref(&self.grid, at.row, at.col);
        match cell {
            Cell::Notes(_) => {
                add_note(&mut self.grid, at.row, at.col, value);
                proof {
                    lemma_with_note_idem(start.at(at), value);
                    assert(start.at(at) is Notes);
                    assert forall|c: Coord| in_grid(start.n(), c) implies #[trigger] self.at(c) == if c
                        == coord {
                        CellView::Notes(set![value])
                    } else if done.insert(at).contains(c) {
                        with_note(start.at(c), value)
                    } else {
                        start.at(c)
                    } by {
                        assert(before.at(c) == if c == coord {
                            CellView::Notes(set![value])
                        } else if done.contains(c) {
                            with_note(start.at(c), value)
                        } else {
                            start.at(c)
                        });
                    }
                    assert forall|x: u8| #![trigger not_possible@.contains(x)]
                        not_possible@.contains(x) <==> exists|c: Coord| #[trigger]
                            done.insert(at).contains(c) && start.at(c) == CellView::Value(x) by {
                        if not_possible@.contains(x) {
                            assert(np0.contains(x));
                            let c = choose|c: Coord| #[trigger] done.contains(c) && start.at(c)
                                == CellView::Value(x);
                            assert(done.insert(at).contains(c));
                        }
                        if exists|c: Coord| #[trigger] done.insert(at).contains(c) && start.at(c)
                            == CellView::Value(x) {
                            let c = choose|c: Coord| #[trigger] done.insert(at).contains(c) && start.at(
                                c,
                            ) == CellView::Value(x);
                            assert(c != at);
                            assert(done.contains(c));
                            assert(np0.contains(x));
                        }
                    }
                }
            },
            Cell::Value(v) => {
                let v = *v;
                if !vec_has(not_possible, v) {
                    not_possible.push(v);
                    assert(not_possible@[not_possible@.len() - 1] == v);
                }
                proof {
                    assert(start.at(at) == CellView::Value(v));
                    assert(not_possible@.contains(v));
                    assert forall|x: u8| np0.contains(x) implies #[trigger] not_possible@.contains(x) by {
                        let k = choose|k: int| 0 <= k < np0.len() && np0[k] == x;
                        assert(not_possible@[k] == x);
                    }
                    assert forall|x: u8| not_possible@.contains(x) && x != v implies #[trigger] np0.contains(x) by {
                        let k = choose|k: int| 0 <= k < not_possible@.len() && not_possible@[k] == x;
                        if k < np0.len() {
                            assert(np0[k] == x);
                        }
                    }
                    assert forall|x: u8| #![trigger not_possible@.contains(x)]
                        not_possible@.contains(x) <==> exists|c: Coord| #[trigger]
                            done.insert(at).contains(c) && start.at(c) == CellView::Value(x) by {
                        if x == v {
                            assert(done.insert(at).contains(at));
                        } else {
                            if not_possible@.contains(x) {
                                assert(np0.contains(x));
                                let c = choose|c: Coord| #[trigger] done.contains(c) && start.at(c)
                                    == CellView::Value(x);
                                assert(done.insert(at).contains(c));
                            }
                            if exists|c: Coord| #[trigger] done.insert(at).contains(c) && start.at(c)
                                == CellView::Value(x) {
                                let c = choose|c: Coord| #[trigger] done.insert(at).contains(c)
                                    && start.at(c) == CellView::Value(x);
                                assert(c != at);
                                assert(done.contains(c));
                                assert(np0.contains(x));
                            }
                        }
                    }
                }
            },
        }
    }
}

impl Board {
    /// Clear the value of a cell at the given row and column.
    ///
    /// If the specified cell is already empty, then nothing is done.
    ///
    /// This also re-populates the [`Cell::Notes`] of the affected cells in the same
    /// row and column and siblings of the cell's region: they regain the cleared
    /// value, and the cleared cell gets every candidate that no related cell holds.
    pub fn clear_cell(&mut self, coord: Coord)
        requires
            old(self).wf(),
        ensures
            final(self).wf(),
            final(self).size == old(self).size,
            final(self).kind == old(self).kind,
            forall|c: Coord|
                in_grid(old(self).n(), c) ==> #[trigger] final(self).at(c) == old(self).after_clear(
                    coord,
                    c,
                ),
    {
        let max_cells = self.size.max_cells() as usize;
        let ghost n = self.n();
        let ghost start = *old(self);
        if coord.row >= max_cells || coord.col >= max_cells {
            return;
        }
        let value = match cell_ref(&self.grid, coord.row, coord.col) {
            Cell::Value(v) => *v,
            Cell::Notes(_) => {
                return;
            },
        };
        let mut one: HashSet<u8> = HashSet::new();
        one.insert(value);
        assert(one@ =~= set![value]);
        put_cell(&mut self.grid, coord.row, coord.col, Cell::Notes(one));
        let mut not_possible: Vec<u8> = Vec::new();
        let ghost mut done: Set<Coord> = Set::empty();
        let siblings = self.kind.siblings(&self.size, coord);
        proof {
            if let BoardKind::Irregular { map } = &self.kind {
                use_type_invariant(map);
            }
            self.kind.lemma_balanced(self.size);
            self.kind.lemma_sibling_seq(self.size, coord);
        }
        let mut k: usize = 0;
        while k < siblings.len()
            invariant
                self.wf(),
                start.wf(),
                self.size == start.size,
                self.kind == start.kind,
                n == start.n(),
                in_grid(n, coord),
                start.at(coord) == CellView::Value(value),
                siblings@ == start.kind.sibling_seq(start.size, coord),
                forall|c: Coord| #[trigger]
                    siblings@.contains(c) <==> (in_grid(n, c) && start.kind.region_at(start.size, c)
                        == start.kind.region_at(start.size, coord) && c != coord),
                0 <= k <= siblings.len(),
                forall|c: Coord| #[trigger] done.contains(c) <==> siblings@.take(k as int).contains(c),
                forall|c: Coord| #[trigger] done.contains(c) ==> start.related(coord, c),
                forall|c: Coord|
                    in_grid(n, c) ==> #[trigger] self.at(c) == if c == coord {
                        CellView::Notes(set![value])
                    } else if done.contains(c) {
                        with_note(start.at(c), value)
                    } else {
                        start.at(c)
                    },
                forall|x: u8|
                    #![trigger not_possible@.contains(x)]
                    not_possible@.contains(x) <==> exists|c: Coord| #[trigger]
                        done.contains(c) && start.at(c) == CellView::Value(x),
            decreases siblings.len() - k,
        {
            let sibling = siblings[k];
            assert(siblings@.contains(sibling));
            self.clear_visit(sibling, value, &mut not_possible, Ghost(coord), Ghost(start), Ghost(done));
            proof {
                assert(siblings@.take(k + 1) == siblings@.take(k as int).push(sibling));
                assert forall|c: Coord| #[trigger] done.insert(sibling).contains(c) <==> siblings@.take(
                    k + 1,
                ).contains(c) by {
                    if siblings@.take(k + 1).contains(c) && c != sibling {
                        let t = siblings@.take(k + 1);
                        let i = choose|i: int| 0 <= i < t.len() && #[trigger] t[i] == c;
                        assert(siblings@.take(k as int)[i] == c);
                    }
                    if siblings@.take(k as int).contains(c) {
                        let t = siblings@.take(k as int);
                        let i = choose|i: int| 0 <= i < t.len() && #[trigger] t[i] == c;
                        assert(siblings@.take(k + 1)[i] == c);
                    }
                    if c == sibling {
                        assert(siblings@.take(k + 1)[k as int] == c);
                    }
                }
                done = done.insert(sibling);
            }
            k += 1;
        }
        proof {
            assert(siblings@.take(siblings@.len() as int) == siblings@);
        }
        let mut i: usize = 0;
        while i < max_cells
            invariant
                self.wf(),
                start.wf(),
                self.size == start.size,
                self.kind == start.kind,
                n == start.n(),
                max_cells == n,
                in_grid(n, coord),
                start.at(coord) == CellView::Value(value),
                0 <= i <= n,
                forall|c: Coord| #[trigger] done.contains(c) ==> start.related(coord, c),
                forall|c: Coord| #[trigger]
                    siblings@.contains(c) ==> done.contains(c),
                forall|c: Coord|
                    in_grid(n, c) && c.col == coord.col && c.row < i && c != coord ==> #[trigger] done.contains(c),
                forall|c: Coord|
                    siblings@.contains(c) <==> (in_grid(n, c) && start.kind.region_at(start.size, c)
                        == start.kind.region_at(start.size, coord) && c != coord),
                forall|c: Coord|
                    in_grid(n, c) ==> #[trigger] self.at(c) == if c == coord {
                        CellView::Notes(set![value])
                    } else if done.contains(c) {
                        with_note(start.at(c), value)
                    } else {
                        start.at(c)
                    },
                forall|x: u8|
                    #![trigger not_possible@.contains(x)]
                    not_possible@.contains(x) <==> exists|c: Coord| #[trigger]
                        done.contains(c) && start.at(c) == CellView::Value(x),
            decreases n - i,
        {
            if i != coord.row {
                let at = Coord { row: i, col: coord.col };
                self.clear_visit(at, value, &mut not_possible, Ghost(coord), Ghost(start), Ghost(done));
                proof {
                    done = done.insert(at);
                }
            }
            i += 1;
        }
        let mut i: usize = 0;
        while i < max_cells
            invariant
                self.wf(),
                start.wf(),
                self.size == start.size,
                self.kind == start.kind,
                n == start.n(),
                max_cells == n,
                in_grid(n, coord),
                start.at(coord) == CellView::Value(value),
                0 <= i <= n,
                forall|c: Coord| #[trigger] done.contains(c) ==> start.related(coord, c),
                forall|c: Coord| #[trigger]
                    siblings@.contains(c) ==> done.contains(c),
                forall|c: Coord|
                    in_grid(n, c) && c.col == coord.col && c != coord ==> #[trigger] done.contains(c),
                forall|c: Coord|
                    in_grid(n, c) && c.row == coord.row && c.col < i && c != coord ==> #[trigger] done.contains(c),
                forall|c: Coord|
                    siblings@.contains(c) <==> (in_grid(n, c) && start.kind.region_at(start.size, c)
                        == start.kind.region_at(start.size, coord) && c != coord),
                forall|c: Coord|
                    in_grid(n, c) ==> #[trigger] self.at(c) == if c == coord {
                        CellView::Notes(set![value])
                    } else if done.contains(c) {
                        with_note(start.at(c), value)
                    } else {
                        start.at(c)
                    },
                forall|x: u8|
                    #![trigger not_possible@.contains(x)]
                    not_possible@.contains(x) <==> exists|c: Coord| #[trigger]
                        done.contains(c) && start.at(c) == CellView::Value(x),
            decreases n - i,
        {
            if i != coord.col {
                let at = Coord { row: coord.row, col: i };
                self.clear_visit(at, value, &mut not_possible, Ghost(coord), Ghost(start), Ghost(done));
                proof {
                    done = done.insert(at);
                }
            }
            i += 1;
        }
        proof {
            assert forall|c: Coord| #[trigger] done.contains(c) <==> start.related(coord, c) by {
                if start.related(coord, c) {
                    if c.row == coord.row {
                    } else if c.col == coord.col {
                    } else {
                        assert(siblings@.contains(c));
                    }
                }
            }
        }
        let mut notes: HashSet<u8> = HashSet::new();
        let mut v: u8 = 0;
        while v < max_cells as u8
            invariant
                max_cells == n,
                4 <= n <= 16,
                0 <= v <= n,
                notes@ == Set::new(|x: u8| x < v && !not_possible@.contains(x)),
            decreases n - v,
        {
            if !vec_has(&not_possible, v) {
                notes.insert(v);
            }
            v += 1;
            assert(notes@ =~= Set::new(|x: u8| x < v && !not_possible@.contains(x)));
        }
        let ghost before = *self;
        proof {
            assert(notes@ =~= Set::new(|x: u8| x < n && !start.seen_value(coord, x))) by {
                assert forall|x: u8| not_possible@.contains(x) <==> start.seen_value(coord, x) by {
                    if not_possible@.contains(x) {
                        let c = choose|c: Coord| #[trigger] done.contains(c) && start.at(c)
                            == CellView::Value(x);
                        assert(start.related(coord, c));
                    }
                    if start.seen_value(coord, x) {
                        let c = choose|c: Coord| #[trigger] start.related(coord, c) && start.at(c)
                            == CellView::Value(x);
                        assert(done.contains(c));
                    }
                }
            }
        }
        put_cell(&mut self.grid, coord.row, coord.col, Cell::Notes(notes));
        proof {
            assert forall|c: Coord| in_grid(n, c) implies #[trigger] self.at(c) == start.after_clear(coord, c) by {
                assert(before.at(c) == if c == coord {
                    CellView::Notes(set![value])
                } else if done.contains(c) {
                    with_note(start.at(c), value)
                } else {
                    start.at(c)
                });
            }
        }
    }
}

/// A copy of the grid, cell by cell.
pub(crate) fn copy_grid(grid: &Vec<Vec<Cell>>) -> (r: Vec<Vec<Cell>>)
    ensures
        grid_view(r) == grid_view(*grid),
        r@.len() == grid@.len(),
        forall|i: int| 0 <= i < grid@.len() ==> #[trigger] r@[i]@.len() == grid@[i]@.len(),
{
    let mut r: Vec<Vec<Cell>> = Vec::new();
    let mut i: usize = 0;
    while i < grid.len()
        invariant
            0 <= i <= grid@.len(),
            r@.len() == i,
            forall|k: int| 0 <= k < i ==> #[trigger] r@[k]@.len() == grid@[k]@.len(),
            forall|k: int, j: int| 0 <= k < i && 0 <= j < grid@[k]@.len() ==> #[trigger] r@[k]@[j]@ == grid@[k]@[j]@,
        decreases grid.len() - i,
    {
        let row = &grid[i];
        let mut copy: Vec<Cell> = Vec::new();
        let mut j: usize = 0;
        while j < row.len()
            invariant
                0 <= j <= row@.len(),
                copy@.len() == j,
                forall|k: int| 0 <= k < j ==> #[trigger] copy@[k]@ == row@[k]@,
            decreases row.len() - j,
        {
            copy.push(row[j].clone());
            j += 1;
        }
        r.push(copy);
        i += 1;
    }
    proof {
        assert forall|k: int| 0 <= k < r@.len() implies #[trigger] grid_view(r)[k] == grid_view(*grid)[k] by {
            assert(grid_view(r)[k] =~= grid_view(*grid)[k]);
        }
        assert(grid_view(r) =~= grid_view(*grid));
    }
    r
}

impl Board {
    /// A copy of the board: same size, same region layout, same cells.
    pub(crate) fn duplicate(&self) -> (r: Board)
        requires
            self.wf(),
        ensures
            r.wf(),
            r.size == self.size,
            r.cells() == self.cells(),
            r.same_shape(self),
    {
        let kind = self.kind.duplicate();
        let grid = copy_grid(&self.grid);
        let r = Board { size: self.size, kind, grid };
        proof {
            assert forall|c: Coord| #[trigger] r.kind.region_at(r.size, c) == self.kind.region_at(self.size, c) by {
            }
        }
        r
    }
}

impl Default for Board {
    /// Create a standard 9x9 board of [`Cell::Notes`] with regular regions.
    fn default() -> (r: Board)
        ensures
            r.size == BoardSize::X9,
            r.kind == BoardKind::Regular,
            r.wf(),
            forall|c: Coord| in_grid(9, c) ==> #[trigger] r.at(c) == CellView::Notes(full_notes(9)),
    {
        Board::new(&BoardSize::X9, BoardKind::Regular)
    }
}

} // verus!
