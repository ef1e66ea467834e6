//! Regions of a Sudoku board: the regular rectangular layout and irregular
//! ("jigsaw") maps.
use crate::cell::{neighbor_seq, Coord};
use crate::size::BoardSize;
use vstd::prelude::*;

verus! {

/// Whether `c` lies in an `n` x `n` grid.
pub open spec fn in_grid(n: nat, c: Coord) -> bool {
    c.row < n && c.col < n
}

/// The cells of row `row` among the columns `< j` that satisfy `f`, in column order.
pub open spec fn row_part(f: spec_fn(Coord) -> bool, row: nat, j: nat) -> Seq<Coord>
    decreases j,
{
    if j == 0 {
        Seq::empty()
    } else {
        let p = row_part(f, row, (j - 1) as nat);
        let c = Coord { row: row as usize, col: (j - 1) as usize };
        if f(c) {
            p.push(c)
        } else {
            p
        }
    }
}

/// The cells of the first `a` rows of an `n` x `n` grid that satisfy `f`, in
/// row-major order.
pub open spec fn grid_part(f: spec_fn(Coord) -> bool, n: nat, a: nat) -> Seq<Coord>
    decreases a,
{
    if a == 0 {
        Seq::empty()
    } else {
        grid_part(f, n, (a - 1) as nat) + row_part(f, (a - 1) as nat, n)
    }
}

/// The first `m` elements of `s` (all of `s` when it is shorter).
pub open spec fn truncate(s: Seq<Coord>, m: int) -> Seq<Coord> {
    if s.len() > m {
        s.take(m)
    } else {
        s
    }
}

/// Membership in a row part.
pub proof fn lemma_row_part(f: spec_fn(Coord) -> bool, row: nat, j: nat)
    requires
        row <= usize::MAX,
        j <= usize::MAX + 1,
    ensures
        forall|c: Coord| #[trigger]
            row_part(f, row, j).contains(c) <==> (c.row == row && c.col < j && f(c)),
        row_part(f, row, j).no_duplicates(),
        row_part(f, row, j).len() <= j,
    decreases j,
{
    if j > 0 {
        lemma_row_part(f, row, (j - 1) as nat);
        let p = row_part(f, row, (j - 1) as nat);
        let c = Coord { row: row as usize, col: (j - 1) as usize };
        if f(c) {
            assert(!p.contains(c));
            assert forall|i: int, k: int| 0 <= i < k < p.push(c).len() implies p.push(c)[i]
                != p.push(c)[k] by {
                if k == p.len() {
                    assert(p.push(c)[i] == p[i]);
                    assert(p.contains(p[i]));
                }
            }
            assert forall|d: Coord| #[trigger] p.push(c).contains(d) <==> (d.row == row && d.col < j
                && f(d)) by {
                if p.push(c).contains(d) {
                    let k = choose|k: int| 0 <= k < p.push(c).len() && p.push(c)[k] == d;
                    if k < p.len() {
                        assert(p.contains(d));
                    }
                }
                if d.row == row && d.col < j && f(d) {
                    if d.col == j - 1 {
                        assert(p.push(c)[p.len() as int] == d);
                    } else {
                        assert(p.contains(d));
                        let k = choose|k: int| 0 <= k < p.len() && p[k] == d;
                        assert(p.push(c)[k] == d);
                    }
                }
            }
        }
    }
}

/// Membership in a grid part.
pub proof fn lemma_grid_part(f: spec_fn(Coord) -> bool, n: nat, a: nat)
    requires
        n <= usize::MAX,
        a <= usize::MAX,
    ensures
        forall|c: Coord| #[trigger]
            grid_part(f, n, a).contains(c) <==> (c.row < a && c.col < n && f(c)),
        grid_part(f, n, a).no_duplicates(),
        grid_part(f, n, a).len() <= a * n,
    decreases a,
{
    if a > 0 {
        lemma_grid_part(f, n, (a - 1) as nat);
        lemma_row_part(f, (a - 1) as nat, n);
        let p = grid_part(f, n, (a - 1) as nat);
        let q = row_part(f, (a - 1) as nat, n);
        assert forall|c: Coord| #[trigger] (p + q).contains(c) <==> (c.row < a && c.col < n
            && f(c)) by {
            if (p + q).contains(c) {
                let k = choose|k: int| 0 <= k < (p + q).len() && (p + q)[k] == c;
                if k < p.len() {
                    assert(p.contains(c));
                } else {
                    assert(q[k - p.len()] == c);
                    assert(q.contains(c));
                }
            }
            if c.row < a && c.col < n && f(c) {
                if c.row == a - 1 {
                    assert(q.contains(c));
                    let k = choose|k: int| 0 <= k < q.len() && q[k] == c;
                    assert((p + q)[p.len() + k] == c);
                } else {
                    assert(p.contains(c));
                    let k = choose|k: int| 0 <= k < p.len() && p[k] == c;
                    assert((p + q)[k] == c);
                }
            }
        }
        assert forall|i: int, k: int| 0 <= i < k < (p + q).len() implies (p + q)[i] != (p + q)[k] by {
            if k < p.len() {
            } else if i >= p.len() {
                assert(q[i - p.len()] == (p + q)[i]);
                assert(q[k - p.len()] == (p + q)[k]);
            } else {
                assert(p.contains((p + q)[i]));
                assert(q[k - p.len()] == (p + q)[k]);
                assert(q.contains((p + q)[k]));
            }
        }
        assert((a - 1) * n + n == a * n) by (nonlinear_arith);
    }
}

/// `grid_part` over fewer rows is a prefix of `grid_part` over more rows, and a
/// partial row extends it in the same way.
pub proof fn lemma_grid_part_prefix(f: spec_fn(Coord) -> bool, n: nat, a: nat, j: nat, b: nat)
    requires
        a < b,
        j <= n,
    ensures
        (grid_part(f, n, a) + row_part(f, a, j)).len() <= grid_part(f, n, b).len(),
        grid_part(f, n, b).take((grid_part(f, n, a) + row_part(f, a, j)).len() as int)
            == grid_part(f, n, a) + row_part(f, a, j),
    decreases b, n - j,
{
    let s = grid_part(f, n, a) + row_part(f, a, j);
    if b == a + 1 {
        if j < n {
            lemma_grid_part_prefix(f, n, a, (j + 1) as nat, b);
            let t = grid_part(f, n, a) + row_part(f, a, (j + 1) as nat);
            assert(t.take(s.len() as int) == s);
        } else {
            assert(grid_part(f, n, b) == s);
        }
    } else {
        lemma_grid_part_prefix(f, n, a, j, (b - 1) as nat);
        let g = grid_part(f, n, (b - 1) as nat);
        assert(grid_part(f, n, b) == g + row_part(f, (b - 1) as nat, n));
        assert(grid_part(f, n, b).take(g.len() as int) == g);
    }
}

/// The supported row lengths.
pub open spec fn supported(n: nat) -> bool {
    n == 4 || n == 6 || n == 9 || n == 12 || n == 16
}

/// Every row of `m` is as long as `m` has rows.
pub open spec fn map_square(m: Seq<Seq<u8>>) -> bool {
    forall|i: int| 0 <= i < m.len() ==> #[trigger] m[i].len() == m.len()
}

/// Every region index of `m` is below the row length.
pub open spec fn map_entries_ok(m: Seq<Seq<u8>>) -> bool {
    forall|i: int, j: int| 0 <= i < m.len() && 0 <= j < m.len() ==> #[trigger] m[i][j] < m.len()
}

/// The cells that `m` assigns to region `r`.
pub open spec fn map_region(m: Seq<Seq<u8>>, r: int) -> spec_fn(Coord) -> bool {
    |c: Coord| m[c.row as int][c.col as int] == r
}

/// Every region of `m` holds exactly as many cells as a row.
pub open spec fn map_balanced(m: Seq<Seq<u8>>) -> bool {
    forall|r: int|
        0 <= r < m.len() ==> #[trigger] grid_part(map_region(m, r), m.len(), m.len()).len()
            == m.len()
}

/// `s` is closed under perpendicular steps between cells of the region `f`.
pub open spec fn closed_in(n: nat, f: spec_fn(Coord) -> bool, s: Set<Coord>) -> bool {
    forall|c: Coord, k: int|
        #![trigger s.contains(c), neighbor_seq(n - 1, c)[k]]
        s.contains(c) && in_grid(n, c) && f(c) && 0 <= k < neighbor_seq(n - 1, c).len() && f(
            neighbor_seq(n - 1, c)[k],
        ) ==> s.contains(neighbor_seq(n - 1, c)[k])
}

/// The region `f` is non-empty and every one of its cells can be reached from
/// its first cell (in row-major order) by perpendicular steps inside the region.
pub open spec fn region_connected(n: nat, f: spec_fn(Coord) -> bool) -> bool {
    let cells = grid_part(f, n, n);
    &&& cells.len() > 0
    &&& forall|s: Set<Coord>|
        #![trigger closed_in(n, f, s)]
        closed_in(n, f, s) && s.contains(cells[0]) ==> forall|c: Coord|
            in_grid(n, c) && f(c) ==> #[trigger] s.contains(c)
}

/// Every region of `m` is contiguous.
pub open spec fn map_contiguous(m: Seq<Seq<u8>>) -> bool {
    forall|r: int| 0 <= r < m.len() ==> #[trigger] region_connected(m.len(), map_region(m, r))
}

/// A well-formed irregular map: a supported square size, in-range region
/// indexes, balanced and contiguous regions.
pub open spec fn valid_map(m: Seq<Seq<u8>>) -> bool {
    &&& supported(m.len())
    &&& map_square(m)
    &&& map_entries_ok(m)
    &&& map_balanced(m)
    &&& map_contiguous(m)
}

/// A mapping of cells to irregular regions.
///
/// The constructors ensure that the map is valid: for an `N x N` board it
/// holds exactly `N` regions of `N` cells each, and every region is contiguous.
#[derive(Debug, PartialEq, Eq)]
pub struct IrregularMap {
    regions: Vec<Vec<u8>>,
}

impl IrregularMap {
    /// The region index of every cell, row by row.
    pub closed spec fn view(&self) -> Seq<Seq<u8>> {
        self.regions@.map_values(|row: Vec<u8>| row@)
    }

    /// A copy of the region index of every cell, row by row.
    pub fn rows(&self) -> (r: Vec<Vec<u8>>)
        ensures
            r@.map_values(|row: Vec<u8>| row@) == self@,
    {
        let mut out: Vec<Vec<u8>> = Vec::new();
        let mut i: usize = 0;
        while i < self.regions.len()
            invariant
                0 <= i <= self.regions@.len(),
                self@.len() == self.regions@.len(),
                out@.len() == i,
                out@.map_values(|row: Vec<u8>| row@) == self@.take(i as int),
            decreases self.regions@.len() - i,
        {
            let src = &self.regions[i];
            let mut row: Vec<u8> = Vec::new();
            let mut j: usize = 0;
            while j < src.len()
                invariant
                    0 <= j <= src@.len(),
                    row@ == src@.take(j as int),
                decreases src@.len() - j,
            {
                row.push(src[j]);
                j += 1;
                assert(row@ =~= src@.take(j as int));
            }
            assert(src@.take(src@.len() as int) =~= src@);
            let ghost before = out@;
            assert(self@[i as int] == src@);
            out.push(row);
            proof {
                let ov = out@.map_values(|row: Vec<u8>| row@);
                let bv = before.map_values(|row: Vec<u8>| row@);
                assert forall|k: int| 0 <= k < i + 1 implies ov[k] == self@.take(i + 1)[k] by {
                    assert(out@ == before.push(row));
                    if k < i {
                        assert(out@[k] == before[k]);
                        assert(bv[k] == self@.take(i as int)[k]);
                    }
                }
                assert(ov =~= self@.take(i + 1));
            }
            i += 1;
        }
        assert(self@.take(self@.len() as int) =~= self@);
        out
    }

    /// Every map that exists is valid.
    #[verifier::type_invariant]
    pub open spec fn inv(self) -> bool {
        valid_map(self@)
    }
}

impl Clone for IrregularMap {
    fn clone(&self) -> (r: IrregularMap)
        ensures
            r@ == self@,
    {
        proof {
            use_type_invariant(self);
        }
        let mut regions: Vec<Vec<u8>> = Vec::new();
        let mut i: usize = 0;
        while i < self.regions.len()
            invariant
                0 <= i <= self.regions.len(),
                regions@.len() == i,
                forall|k: int| 0 <= k < i ==> #[trigger] regions@[k]@ == self.regions@[k]@,
            decreases self.regions.len() - i,
        {
            let row = &self.regions[i];
            let mut copy: Vec<u8> = Vec::new();
            let mut j: usize = 0;
            while j < row.len()
                invariant
                    0 <= j <= row.len(),
                    copy@ == row@.take(j as int),
                decreases row.len() - j,
            {
                copy.push(row[j]);
                j += 1;
                assert(copy@ == row@.take(j as int));
            }
            assert(row@.take(row.len() as int) == row@);
            regions.push(copy);
            i += 1;
        }
        assert(regions@.map_values(|row: Vec<u8>| row@) =~= self.regions@.map_values(
            |row: Vec<u8>| row@,
        ));
        IrregularMap { regions }
    }
}

/// The type describing the shape of a board's regions.
#[derive(Debug, Clone, PartialEq, Eq)]
pub enum BoardKind {
    /// A standard rectangular grid of regions.
    Regular,
    /// An irregular (AKA "Jigsaw") grid of regions.
    Irregular {
        /// A mapping of the cells to their respective region's index.
        map: IrregularMap,
    },
}

/// The name under which the region layout is usually spoken of.
pub type RegionKind = BoardKind;

impl BoardKind {
    /// The region of an in-grid cell.
    pub open spec fn region_at(self, size: BoardSize, c: Coord) -> int {
        match self {
            BoardKind::Regular => (c.row as int / size.region_height() as int) * size.region_height()
                + c.col as int / size.region_width() as int,
            BoardKind::Irregular { map } => map@[c.row as int][c.col as int] as int,
        }
    }

    /// An irregular map must have as many rows as the board.
    pub open spec fn fits(self, size: BoardSize) -> bool {
        match self {
            BoardKind::Regular => true,
            BoardKind::Irregular { map } => map@.len() == size.cells(),
        }
    }

    /// The cells of region `r`.
    pub open spec fn in_region(self, size: BoardSize, r: int) -> spec_fn(Coord) -> bool {
        |c: Coord| self.region_at(size, c) == r
    }

    /// The other cells of the region that holds `coord`.
    pub open spec fn sibling_of(self, size: BoardSize, coord: Coord) -> spec_fn(Coord) -> bool {
        |c: Coord| self.region_at(size, c) == self.region_at(size, coord) && c != coord
    }

    /// The members of region `r` as [`BoardKind::members`] lists them.
    pub open spec fn member_seq(self, size: BoardSize, r: int) -> Seq<Coord> {
        truncate(grid_part(self.in_region(size, r), size.cells(), size.cells()), size.cells() as int)
    }

    /// The siblings of `coord` as [`BoardKind::siblings`] lists them.
    pub open spec fn sibling_seq(self, size: BoardSize, coord: Coord) -> Seq<Coord> {
        if in_grid(size.cells(), coord) {
            truncate(
                grid_part(self.sibling_of(size, coord), size.cells(), size.cells()),
                size.cells() - 1,
            )
        } else {
            Seq::empty()
        }
    }

    /// The region index [`BoardKind::index`] reports.
    pub open spec fn index_of(self, size: BoardSize, coord: Coord) -> Option<u8> {
        if in_grid(size.cells(), coord) {
            Some(self.region_at(size, coord) as u8)
        } else {
            None
        }
    }

    /// Region indexes of in-grid cells are below the row length.
    pub proof fn lemma_region_bound(self, size: BoardSize, c: Coord)
        requires
            self.fits(size),
            self matches BoardKind::Irregular { map } ==> valid_map(map@),
            in_grid(size.cells(), c),
        ensures
            0 <= self.region_at(size, c) < size.cells(),
    {
        size.lemma_region_shape();
        let w = size.region_width() as int;
        let h = size.region_height() as int;
        if self is Regular {
            let a = c.row as int / h;
            let b = c.col as int / w;
            assert(a * h <= c.row) by (nonlinear_arith)
                requires
                    a == c.row as int / h,
                    h > 0,
                    c.row >= 0,
            ;
            assert(a < w) by (nonlinear_arith)
                requires
                    a == c.row as int / h,
                    h > 0,
                    c.row < w * h,
                    c.row >= 0,
            ;
            assert(b < h) by (nonlinear_arith)
                requires
                    b == c.col as int / w,
                    w > 0,
                    c.col < w * h,
                    c.col >= 0,
            ;
            assert(a * h + b < w * h) by (nonlinear_arith)
                requires
                    0 <= a < w,
                    0 <= b < h,
            ;
            assert(0 <= b);
            assert(0 <= a * h) by (nonlinear_arith)
                requires
                    0 <= a,
                    0 < h,
            ;
        }
    }

    /// The region index of an in-grid cell fits a `u8`.
    pub proof fn lemma_region_bound_any(self, size: BoardSize, c: Coord)
        requires
            self.fits(size),
            in_grid(size.cells(), c),
        ensures
            0 <= self.region_at(size, c) < 256,
            self.region_at(size, c) as u8 as int == self.region_at(size, c),
    {
        match self {
            BoardKind::Regular => {
                self.lemma_region_bound(size, c);
            },
            BoardKind::Irregular { map } => {
            },
        }
    }

    /// Get the index of the region for the given `coord`.
    ///
    /// If the `coord` is out of bounds (per [`BoardSize::max_cells()`]),
    /// then [`None`] is returned.
    pub fn index(&self, size: &BoardSize, coord: Coord) -> (r: Option<u8>)
        requires
            self.fits(*size),
        ensures
            r == self.index_of(*size, coord),
            r matches Some(i) ==> i < size.cells(),
    {
        let max_cells = size.max_cells() as usize;
        if coord.row < max_cells && coord.col < max_cells {
            match self {
                BoardKind::Regular => {
                    let width = size.width();
                    let height = size.height();
                    proof {
                        self.lemma_region_bound(*size, coord);
                        size.lemma_region_shape();
                        let a = coord.row as int / height as int;
                        assert(a * height <= coord.row) by (nonlinear_arith)
                            requires
                                a == coord.row as int / height as int,
                                height > 0,
                        ;
                    }
                    Some(((coord.row as u8) / height * height) + ((coord.col as u8) / width))
                },
                BoardKind::Irregular { map } => {
                    proof {
                        use_type_invariant(map);
                        self.lemma_region_bound(*size, coord);
                    }
                    Some(map.regions[coord.row][coord.col])
                },
            }
        } else {
            None
        }
    }
}

impl BoardKind {
    /// Get all the members of a region for the given index, in row-major order
    /// (at most a row's worth of them).
    pub fn members(&self, size: &BoardSize, index: u8) -> (r: Vec<Coord>)
        requires
            self.fits(*size),
        ensures
            r@ == self.member_seq(*size, index as int),
    {
        let max_cells = size.max_cells() as usize;
        let ghost n = size.cells();
        let ghost f = self.in_region(*size, index as int);
        let mut members: Vec<Coord> = Vec::new();
        let mut found_all = false;
        let mut row: usize = 0;
        while row < max_cells && !found_all
            invariant
                max_cells == n,
                n == size.cells(),
                4 <= n <= 16,
                self.fits(*size),
                f == self.in_region(*size, index as int),
                0 <= row <= n,
                !found_all ==> members@ == grid_part(f, n, row as nat) && members@.len() < n,
                found_all ==> members@ == self.member_seq(*size, index as int),
            decreases n - row,
        {
            let mut col: usize = 0;
            while col < max_cells && !found_all
                invariant
                    max_cells == n,
                    n == size.cells(),
                    4 <= n <= 16,
                    self.fits(*size),
                    f == self.in_region(*size, index as int),
                    0 <= row < n,
                    0 <= col <= n,
                    !found_all ==> members@ == grid_part(f, n, row as nat) + row_part(
                        f,
                        row as nat,
                        col as nat,
                    ) && members@.len() < n,
                    found_all ==> members@ == self.member_seq(*size, index as int),
                decreases n - col,
            {
                let member_coord = Coord { row, col };
                proof {
                    self.lemma_region_bound_any(*size, member_coord);
                }
                if let Some(i) = self.index(size, member_coord) {
                    if i == index {
                        members.push(member_coord);
                    }
                }
                proof {
                    assert(row_part(f, row as nat, (col + 1) as nat) == (if f(member_coord) {
                        row_part(f, row as nat, col as nat).push(member_coord)
                    } else {
                        row_part(f, row as nat, col as nat)
                    }));
                }
                if members.len() >= max_cells {
                    found_all = true;
                    proof {
                        lemma_grid_part_prefix(f, n, row as nat, (col + 1) as nat, n);
                        let g = grid_part(f, n, n);
                        assert(g.take(n as int) == members@);
                        if g.len() == n {
                            assert(g.take(n as int) == g);
                        }
                    }
                }
                col += 1;
            }
            if !found_all {
                assert(grid_part(f, n, (row + 1) as nat) == grid_part(f, n, row as nat) + row_part(
                    f,
                    row as nat,
                    n,
                ));
            }
            row += 1;
        }
        members
    }
}

impl BoardKind {
    /// Get all the sibling cells for a region containing the given `coord`,
    /// in row-major order (at most a row's worth of them, less one).
    ///
    /// Similar to [`Self::members()`] but excludes the given `coord`.
    pub fn siblings(&self, size: &BoardSize, coord: Coord) -> (r: Vec<Coord>)
        requires
            self.fits(*size),
        ensures
            r@ == self.sibling_seq(*size, coord),
    {
        let max_cells = size.max_cells() as usize;
        let ghost n = size.cells();
        let mut siblings: Vec<Coord> = Vec::new();
        if let Some(index) = self.index(size, coord) {
            let ghost f = self.sibling_of(*size, coord);
            let mut found_all = false;
            let mut row: usize = 0;
            while row < max_cells && !found_all
                invariant
                    max_cells == n,
                    n == size.cells(),
                    4 <= n <= 16,
                    self.fits(*size),
                    in_grid(n, coord),
                    index as int == self.region_at(*size, coord),
                    f == self.sibling_of(*size, coord),
                    0 <= row <= n,
                    !found_all ==> siblings@ == grid_part(f, n, row as nat) && siblings@.len() < n
                        - 1,
                    found_all ==> siblings@ == self.sibling_seq(*size, coord),
                decreases n - row,
            {
                let mut col: usize = 0;
                while col < max_cells && !found_all
                    invariant
                        max_cells == n,
                        n == size.cells(),
                        4 <= n <= 16,
                        self.fits(*size),
                        in_grid(n, coord),
                        index as int == self.region_at(*size, coord),
                        f == self.sibling_of(*size, coord),
                        0 <= row < n,
                        0 <= col <= n,
                        !found_all ==> siblings@ == grid_part(f, n, row as nat) + row_part(
                            f,
                            row as nat,
                            col as nat,
                        ) && siblings@.len() < n - 1,
                        found_all ==> siblings@ == self.sibling_seq(*size, coord),
                    decreases n - col,
                {
                    let sibling = Coord { row, col };
                    proof {
                        self.lemma_region_bound_any(*size, sibling);
                        self.lemma_region_bound_any(*size, coord);
                        assert(row_part(f, row as nat, (col + 1) as nat) == (if f(sibling) {
                            row_part(f, row as nat, col as nat).push(sibling)
                        } else {
                            row_part(f, row as nat, col as nat)
                        }));
                    }
                    if sibling == coord {
                        col += 1;
                        continue;
                    }
                    if let Some(i) = self.index(size, sibling) {
                        if i == index {
                            siblings.push(sibling);
                        }
                    }
                    if siblings.len() >= max_cells - 1 {
                        found_all = true;
                        proof {
                            lemma_grid_part_prefix(f, n, row as nat, (col + 1) as nat, n);
                            let g = grid_part(f, n, n);
                            assert(g.take(n - 1) == siblings@);
                            if g.len() == n - 1 {
                                assert(g.take(n - 1) == g);
                            }
                        }
                    }
                    col += 1;
                }
                if !found_all {
                    assert(grid_part(f, n, (row + 1) as nat) == grid_part(f, n, row as nat)
                        + row_part(f, row as nat, n));
                }
                row += 1;
            }
        }
        siblings
    }
}

/// `x` limited to `[0, hi]`.
pub open spec fn clamp(x: int, hi: int) -> int {
    if x < 0 {
        0
    } else if x > hi {
        hi
    } else {
        x
    }
}

/// Integer division by a positive `d` puts `x` in block `k` exactly when
/// `k * d <= x < k * d + d`.
pub proof fn lemma_div_block(x: int, d: int, k: int)
    requires
        x >= 0,
        d > 0,
    ensures
        (x / d == k) <==> (k * d <= x && x < k * d + d),
{
    vstd::arithmetic::div_mod::lemma_fundamental_div_mod(x, d);
    let q = x / d;
    let m = x % d;
    assert(0 <= m < d);
    assert(x == q * d + m) by (nonlinear_arith)
        requires
            x == d * q + m,
    ;
    if q == k {
        assert(k * d <= x < k * d + d);
    }
    if k * d <= x && x < k * d + d {
        if q < k {
            assert(q * d + d <= k * d) by (nonlinear_arith)
                requires
                    q < k,
                    d > 0,
            ;
        }
        if q > k {
            assert(k * d + d <= q * d) by (nonlinear_arith)
                requires
                    q > k,
                    d > 0,
            ;
        }
    }
}

impl BoardKind {
    /// Every region holds exactly as many cells as a row.
    pub open spec fn balanced(self, size: BoardSize) -> bool {
        forall|r: int|
            0 <= r < size.cells() ==> #[trigger] grid_part(
                self.in_region(size, r),
                size.cells(),
                size.cells(),
            ).len() == size.cells()
    }

    /// In row `row` of a regular board, region `r` occupies the columns of
    /// block `r - (row / h) * h`, if that block exists.
    proof fn lemma_regular_row(size: BoardSize, r: int, row: nat, j: nat)
        requires
            row < size.cells(),
            j <= size.cells(),
            0 <= r < size.cells(),
        ensures
            ({
                let w = size.region_width() as int;
                let h = size.region_height() as int;
                let k = r - (row as int / h) * h;
                row_part(BoardKind::Regular.in_region(size, r), row, j).len() == if 0 <= k < h {
                    clamp(j - k * w, w)
                } else {
                    0
                }
            }),
        decreases j,
    {
        size.lemma_region_shape();
        let w = size.region_width() as int;
        let h = size.region_height() as int;
        let k = r - (row as int / h) * h;
        if j > 0 {
            BoardKind::lemma_regular_row(size, r, row, (j - 1) as nat);
            let x = j - 1;
            lemma_div_block(x, w, k);
            lemma_div_block(x, w, x / w);
            assert(x / w < h) by (nonlinear_arith)
                requires
                    x / w * w <= x,
                    x < w * h,
                    w > 0,
            ;
            assert(x / w >= 0) by (nonlinear_arith)
                requires
                    x >= 0,
                    w > 0,
            ;
        }
    }

    /// Over the first `a` rows of a regular board, region `r` holds `w` cells in
    /// each row of its band.
    proof fn lemma_regular_grid(size: BoardSize, r: int, a: nat)
        requires
            a <= size.cells(),
            0 <= r < size.cells(),
        ensures
            ({
                let w = size.region_width() as int;
                let h = size.region_height() as int;
                grid_part(BoardKind::Regular.in_region(size, r), size.cells(), a).len() == w * clamp(
                    a - (r / h) * h,
                    h,
                )
            }),
        decreases a,
    {
        size.lemma_region_shape();
        let n = size.cells();
        let w = size.region_width() as int;
        let h = size.region_height() as int;
        let f = BoardKind::Regular.in_region(size, r);
        if a > 0 {
            BoardKind::lemma_regular_grid(size, r, (a - 1) as nat);
            BoardKind::lemma_regular_row(size, r, (a - 1) as nat, n);
            let row = a - 1;
            let k = r - (row / h) * h;
            let b = r / h;
            lemma_div_block(row, h, b);
            lemma_div_block(row, h, row / h);
            lemma_div_block(r, h, b);
            assert(b * h <= r < b * h + h);
            assert(row / h * h <= row < row / h * h + h);
            if 0 <= k < h {
                assert(row / h == b) by (nonlinear_arith)
                    requires
                        b * h <= r < b * h + h,
                        row / h * h <= r < row / h * h + h,
                        h > 0,
                ;
                assert(clamp(n - k * w, w) == w) by (nonlinear_arith)
                    requires
                        0 <= k < h,
                        n == w * h,
                        w > 0,
                ;
            } else {
                assert(row / h != b) by (nonlinear_arith)
                    requires
                        b * h <= r < b * h + h,
                        !(row / h * h <= r < row / h * h + h),
                        h > 0,
                ;
            }
            assert(w * clamp(a - b * h, h) == w * clamp(a - 1 - b * h, h) + (if row / h == b {
                w
            } else {
                0
            })) by (nonlinear_arith)
                requires
                    row == a - 1,
                    b * h <= row < b * h + h <==> row / h == b,
                    w > 0,
                    h > 0,
            ;
        }
    }

    /// Regular boards and valid irregular maps are balanced.
    pub proof fn lemma_balanced(self, size: BoardSize)
        requires
            self.fits(size),
            self matches BoardKind::Irregular { map } ==> valid_map(map@),
        ensures
            self.balanced(size),
    {
        size.lemma_region_shape();
        let n = size.cells();
        let w = size.region_width() as int;
        let h = size.region_height() as int;
        match self {
            BoardKind::Regular => {
                assert forall|r: int| 0 <= r < n implies #[trigger] grid_part(
                    self.in_region(size, r),
                    n,
                    n,
                ).len() == n by {
                    BoardKind::lemma_regular_grid(size, r, n);
                    let b = r / h;
                    lemma_div_block(r, h, b);
                    assert(clamp(n - b * h, h) == h) by (nonlinear_arith)
                        requires
                            b * h <= r < b * h + h,
                            r < n,
                            n == w * h,
                            h > 0,
                            w > 0,
                    ;
                }
            },
            BoardKind::Irregular { map } => {
                assert forall|r: int| 0 <= r < n implies #[trigger] grid_part(
                    self.in_region(size, r),
                    n,
                    n,
                ).len() == n by {
                    assert(self.in_region(size, r) =~= map_region(map@, r));
                }
            },
        }
    }
}

impl BoardKind {
    /// In a balanced layout, [`BoardKind::siblings`] lists exactly the other
    /// cells of the region, each once.
    pub proof fn lemma_sibling_seq(self, size: BoardSize, coord: Coord)
        requires
            self.fits(size),
            self.balanced(size),
            self matches BoardKind::Irregular { map } ==> valid_map(map@),
            in_grid(size.cells(), coord),
        ensures
            forall|c: Coord| #[trigger]
                self.sibling_seq(size, coord).contains(c) <==> (in_grid(size.cells(), c)
                    && self.region_at(size, c) == self.region_at(size, coord) && c != coord),
            self.sibling_seq(size, coord).no_duplicates(),
            self.sibling_seq(size, coord).len() == size.cells() - 1,
    {
        let n = size.cells();
        let r = self.region_at(size, coord);
        self.lemma_region_bound(size, coord);
        let f = self.sibling_of(size, coord);
        let fr = self.in_region(size, r);
        let g = grid_part(f, n, n);
        let big = grid_part(fr, n, n);
        lemma_grid_part(f, n, n);
        lemma_grid_part(fr, n, n);
        assert(big.len() == n);
        big.unique_seq_to_set();
        g.unique_seq_to_set();
        assert(g.to_set() =~= big.to_set().remove(coord));
        assert(big.to_set().contains(coord));
        assert(g.to_set().len() == n - 1);
        assert(g.len() == n - 1);
    }

    /// In a balanced layout, [`BoardKind::members`] lists exactly the cells of
    /// an existing region, each once.
    pub proof fn lemma_member_seq(self, size: BoardSize, r: int)
        requires
            self.fits(size),
            self.balanced(size),
            0 <= r < size.cells(),
        ensures
            forall|c: Coord| #[trigger]
                self.member_seq(size, r).contains(c) <==> (in_grid(size.cells(), c)
                    && self.region_at(size, c) == r),
            self.member_seq(size, r).no_duplicates(),
            self.member_seq(size, r).len() == size.cells(),
    {
        lemma_grid_part(self.in_region(size, r), size.cells(), size.cells());
    }
}

impl BoardKind {
    /// Every cell that [`BoardKind::members`] lists is a cell of the grid.
    pub proof fn lemma_member_in_grid(self, size: BoardSize, r: int, k: int)
        requires
            0 <= k < self.member_seq(size, r).len(),
        ensures
            in_grid(size.cells(), self.member_seq(size, r)[k]),
            self.region_at(size, self.member_seq(size, r)[k]) == r,
    {
        let n = size.cells();
        let g = grid_part(self.in_region(size, r), n, n);
        lemma_grid_part(self.in_region(size, r), n, n);
        let m = self.member_seq(size, r);
        assert(m[k] == g[k]);
        assert(g.contains(g[k]));
    }
}

impl BoardKind {
    /// A copy of the region layout.
    pub fn duplicate(&self) -> (r: BoardKind)
        ensures
            match (r, *self) {
                (BoardKind::Regular, BoardKind::Regular) => true,
                (BoardKind::Irregular { map: a }, BoardKind::Irregular { map: b }) => a@ == b@,
                _ => false,
            },
    {
        match self {
            BoardKind::Regular => BoardKind::Regular,
            BoardKind::Irregular { map } => BoardKind::Irregular { map: map.clone() },
        }
    }
}

impl IrregularMap {
    /// Wrap rows that form a valid map.
    pub(crate) fn from_valid(regions: Vec<Vec<u8>>) -> (r: IrregularMap)
        requires
            valid_map(regions@.map_values(|row: Vec<u8>| row@)),
        ensures
            r@ == regions@.map_values(|row: Vec<u8>| row@),
    {
        IrregularMap { regions }
    }
}

} // verus!