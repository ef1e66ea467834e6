//! Validating and generating irregular region maps.
use crate::cell::{neighbor_seq, Cardinal, Coord};
use crate::region::{closed_in, grid_part, in_grid, lemma_grid_part, map_region, region_connected, row_part, supported, valid_map, BoardKind, IrregularMap};
use crate::generate::shuffle;
use crate::layout::{lemma_regular_valid, lemma_swap_valid};
use crate::size::BoardSize;
use crate::text::{from_hex, hex_char, push_char};
use vstd::prelude::*;

verus! {

/// Errors that can occur when creating or validating an IrregularMap.
#[derive(Debug, Clone, Copy, PartialEq, Eq, Structural)]
pub enum IrregularMapError {
    /// This typically means the map does not have the correct number of cells
    /// for each row and column.
    InvalidMapDimensions,
    /// This typically means that a region index in the map is out of bounds.
    ///
    /// Each region index must be in range `[0, N-1]`, where `N` is the
    /// number of regions (which is also the number of cells in a row or column).
    InvalidRegionIndex,
    /// This typically means that a region in the map does not have the correct
    /// number of cells in it.
    ///
    /// Each region must contain exactly `N` cells, where `N` is the number of
    /// cells in a row or column of the board.
    UnbalancedRegion,
    /// This typically means that the map has non contiguous regions.
    ///
    /// Each cell in a region must connect perpendicularly to at least
    /// one other cell in the same region.
    NonContiguousRegion,
}

/// The number of entries equal to `r` among the first `j` of `row`.
pub open spec fn row_count(row: Seq<u8>, r: int, j: nat) -> nat
    decreases j,
{
    if j == 0 {
        0
    } else {
        row_count(row, r, (j - 1) as nat) + if row[j - 1] == r {
            1nat
        } else {
            0nat
        }
    }
}

/// The number of entries equal to `r` in the first `a` rows of `m`.
pub open spec fn map_count(m: Seq<Seq<u8>>, r: int, a: nat) -> nat
    decreases a,
{
    if a == 0 {
        0
    } else {
        map_count(m, r, (a - 1) as nat) + row_count(m[a - 1], r, m[a - 1].len())
    }
}

/// The row has `n` entries, each below `n`.
pub open spec fn row_ok(row: Seq<u8>, n: nat) -> bool {
    row.len() == n && forall|j: int| 0 <= j < n ==> #[trigger] row[j] < n
}

/// Some row of `m` is too short, too long or has an entry not below `n`.
pub open spec fn has_bad_row(m: Seq<Seq<u8>>, n: nat) -> bool {
    exists|i: int| 0 <= i < m.len() && !row_ok(#[trigger] m[i], n)
}

/// The first row of `m` that is not made of `n` entries below `n`.
pub open spec fn first_bad_row(m: Seq<Seq<u8>>, n: nat) -> int {
    choose|i: int| 0 <= i < m.len() && !row_ok(m[i], n) && forall|k: int| 0 <= k < i ==> row_ok(#[trigger] m[k], n)
}

/// What validating `m` as a map of `n` regions reports: a number of rows
/// other than `n`, then the first bad row's fault, then an unbalanced region,
/// then a non-contiguous region.
pub open spec fn map_error(m: Seq<Seq<u8>>, n: nat) -> Option<IrregularMapError> {
    if m.len() != n {
        Some(IrregularMapError::InvalidMapDimensions)
    } else if has_bad_row(m, n) {
        if m[first_bad_row(m, n)].len() != n {
            Some(IrregularMapError::InvalidMapDimensions)
        } else {
            Some(IrregularMapError::InvalidRegionIndex)
        }
    } else if exists|r: int| 0 <= r < n && #[trigger] map_count(m, r, m.len()) != n {
        Some(IrregularMapError::UnbalancedRegion)
    } else if exists|r: int| 0 <= r < n && !#[trigger] region_connected(n, map_region(m, r)) {
        Some(IrregularMapError::NonContiguousRegion)
    } else {
        None
    }
}

/// When some row is bad, `first_bad_row` names the first of them.
pub proof fn lemma_first_bad_row(m: Seq<Seq<u8>>, n: nat, i: int)
    requires
        0 <= i < m.len(),
        !row_ok(m[i], n),
        forall|k: int| 0 <= k < i ==> row_ok(#[trigger] m[k], n),
    ensures
        first_bad_row(m, n) == i,
{
    let f = first_bad_row(m, n);
    assert(0 <= f < m.len() && !row_ok(m[f], n) && forall|k: int| 0 <= k < f ==> row_ok(#[trigger] m[k], n));
    if f < i {
        assert(row_ok(m[f], n));
    }
    if i < f {
        assert(row_ok(m[i], n));
    }
}

/// The cells of a row part are counted by `row_count`.
pub proof fn lemma_row_part_count(m: Seq<Seq<u8>>, r: int, i: nat, j: nat)
    requires
        i < m.len(),
        j <= m[i as int].len(),
        m.len() <= 16,
        m[i as int].len() <= 16,
    ensures
        row_part(map_region(m, r), i, j).len() == row_count(m[i as int], r, j),
    decreases j,
{
    if j > 0 {
        lemma_row_part_count(m, r, i, (j - 1) as nat);
        let c = Coord { row: i as usize, col: (j - 1) as usize };
        assert(c.row as int == i && c.col as int == j - 1);
        assert(map_region(m, r)(c) == (m[i as int][j - 1] == r));
    }
}

/// The cells of a grid part are counted by `map_count` when the rows have `n` entries.
pub proof fn lemma_grid_part_count(m: Seq<Seq<u8>>, r: int, n: nat, a: nat)
    requires
        a <= m.len(),
        m.len() <= 16,
        n <= 16,
        forall|i: int| 0 <= i < m.len() ==> #[trigger] m[i].len() == n,
    ensures
        grid_part(map_region(m, r), n, a).len() == map_count(m, r, a),
    decreases a,
{
    if a > 0 {
        lemma_grid_part_count(m, r, n, (a - 1) as nat);
        lemma_row_part_count(m, r, (a - 1) as nat, n);
    }
}

/// The counts of the values below `k` in a row.
pub open spec fn row_total(row: Seq<u8>, k: nat, j: nat) -> nat
    decreases k,
{
    if k == 0 {
        0
    } else {
        row_total(row, (k - 1) as nat, j) + row_count(row, k - 1, j)
    }
}

/// The counts of the values below `k` in the first `a` rows.
pub open spec fn map_total(m: Seq<Seq<u8>>, k: nat, a: nat) -> nat
    decreases k,
{
    if k == 0 {
        0
    } else {
        map_total(m, (k - 1) as nat, a) + map_count(m, k - 1, a)
    }
}

/// Counting one entry.
proof fn lemma_row_total_step(row: Seq<u8>, k: nat, j: nat)
    requires
        j < row.len(),
    ensures
        row_total(row, k, j + 1) == row_total(row, k, j) + if row[j as int] < k {
            1nat
        } else {
            0nat
        },
    decreases k,
{
    if k > 0 {
        lemma_row_total_step(row, (k - 1) as nat, j);
    }
}

/// A row of entries below `n` has all its entries counted.
proof fn lemma_row_total(row: Seq<u8>, n: nat, j: nat)
    requires
        j <= row.len(),
        forall|t: int| 0 <= t < row.len() ==> #[trigger] row[t] < n,
    ensures
        row_total(row, n, j) == j,
    decreases j,
{
    if j == 0 {
        assert(row_total(row, n, 0) == 0) by {
            lemma_row_total_zero(row, n);
        }
    } else {
        lemma_row_total(row, n, (j - 1) as nat);
        lemma_row_total_step(row, n, (j - 1) as nat);
    }
}

/// Nothing is counted in an empty prefix.
proof fn lemma_row_total_zero(row: Seq<u8>, k: nat)
    ensures
        row_total(row, k, 0) == 0,
    decreases k,
{
    if k > 0 {
        lemma_row_total_zero(row, (k - 1) as nat);
    }
}

/// Counting one more row.
proof fn lemma_map_total_step(m: Seq<Seq<u8>>, k: nat, a: nat)
    requires
        a < m.len(),
    ensures
        map_total(m, k, a + 1) == map_total(m, k, a) + row_total(m[a as int], k, m[a as int].len()),
    decreases k,
{
    if k > 0 {
        lemma_map_total_step(m, (k - 1) as nat, a);
    }
}

/// Nothing is counted in no rows.
proof fn lemma_map_total_zero(m: Seq<Seq<u8>>, k: nat)
    ensures
        map_total(m, k, 0) == 0,
    decreases k,
{
    if k > 0 {
        lemma_map_total_zero(m, (k - 1) as nat);
    }
}

/// Rows of `n` entries below `n` hold `a * n` counted entries.
proof fn lemma_map_total(m: Seq<Seq<u8>>, n: nat, a: nat)
    requires
        a <= m.len(),
        forall|i: int| 0 <= i < m.len() ==> row_ok(#[trigger] m[i], n),
    ensures
        map_total(m, n, a) == a * n,
    decreases a,
{
    if a == 0 {
        lemma_map_total_zero(m, n);
    } else {
        lemma_map_total(m, n, (a - 1) as nat);
        lemma_map_total_step(m, n, (a - 1) as nat);
        assert(row_ok(m[a - 1], n));
        lemma_row_total(m[a - 1], n, n);
        assert((a - 1) * n + n == a * n) by (nonlinear_arith);
    }
}

/// Equal counts of `n` for every value below `n` make the sum `n * n`.
proof fn lemma_map_total_balanced(m: Seq<Seq<u8>>, n: nat, k: nat)
    requires
        k <= n,
        forall|r: int| 0 <= r < n ==> #[trigger] map_count(m, r, m.len()) == n,
    ensures
        map_total(m, k, m.len()) == k * n,
    decreases k,
{
    if k > 0 {
        lemma_map_total_balanced(m, n, (k - 1) as nat);
        assert(map_count(m, k - 1, m.len()) == n);
        assert((k - 1) * n + n == k * n) by (nonlinear_arith);
    } else {
        assert(0 * n == 0);
    }
}

/// Rows of `n` entries below `n` in which every value occurs `n` times are `n` rows.
pub proof fn lemma_square(m: Seq<Seq<u8>>, n: nat)
    requires
        n > 0,
        !has_bad_row(m, n),
        forall|r: int| 0 <= r < n ==> #[trigger] map_count(m, r, m.len()) == n,
    ensures
        m.len() == n,
{
    assert(forall|i: int| 0 <= i < m.len() ==> row_ok(#[trigger] m[i], n));
    lemma_map_total(m, n, m.len());
    lemma_map_total_balanced(m, n, n);
    assert(m.len() * n == n * n);
    assert(m.len() == n) by (nonlinear_arith)
        requires
            m.len() * n == n * n,
            n > 0,
    ;
}

/// A map that passes every check is a valid square map.
pub proof fn lemma_no_error_valid(m: Seq<Seq<u8>>, n: nat)
    requires
        supported(n),
        map_error(m, n) is None,
    ensures
        valid_map(m),
        m.len() == n,
{
    assert(n <= 16);
    assert(forall|i: int| 0 <= i < m.len() ==> row_ok(#[trigger] m[i], n));
    lemma_map_total(m, n, m.len());
    lemma_map_total_balanced(m, n, n);
    assert(m.len() * n == n * n);
    assert(m.len() == n) by (nonlinear_arith)
        requires
            m.len() * n == n * n,
            n > 0,
    ;
    assert forall|r: int| 0 <= r < m.len() implies #[trigger] grid_part(map_region(m, r), m.len(), m.len()).len()
        == m.len() by {
        lemma_grid_part_count(m, r, n, n);
    }
    assert forall|i: int, j: int| 0 <= i < m.len() && 0 <= j < m.len() implies #[trigger] m[i][j] < m.len() by {
        assert(row_ok(m[i], n));
    }
}

/// A valid square map passes every check.
pub proof fn lemma_valid_no_error(m: Seq<Seq<u8>>, n: nat)
    requires
        valid_map(m),
        m.len() == n,
    ensures
        map_error(m, n) is None,
{
    assert(n <= 16);
    assert forall|i: int| 0 <= i < m.len() implies row_ok(#[trigger] m[i], n) by {
        assert forall|j: int| 0 <= j < n implies #[trigger] m[i][j] < n by {
        }
    }
    assert forall|r: int| 0 <= r < n implies #[trigger] map_count(m, r, m.len()) == n by {
        lemma_grid_part_count(m, r, n, n);
    }
}

/// A finite subset as large as its finite superset is the superset.
pub proof fn lemma_subset_same_len(v: Set<Coord>, r: Set<Coord>)
    requires
        v.subset_of(r),
        r.finite(),
        v.len() == r.len(),
    ensures
        v == r,
{
    if !(v =~= r) {
        let x = choose|x: Coord| r.contains(x) && !v.contains(x);
        vstd::set_lib::lemma_len_subset(v, r.remove(x));
    }
}

/// A map of regions for a board size, used to validate a map and to grow an
/// irregular map out of the regular one.
pub struct RegionMap {
    /// The region index of every cell, row by row.
    pub regions: Vec<Vec<u8>>,
    size: BoardSize,
    current_region: u8,
}

impl RegionMap {
    /// The region index of every cell, row by row.
    pub closed spec fn view(&self) -> Seq<Seq<u8>> {
        self.regions@.map_values(|row: Vec<u8>| row@)
    }

    /// The row length of the board size.
    pub closed spec fn n(&self) -> nat {
        self.size.cells()
    }

    /// The map has `n` rows of `n` entries.
    pub open spec fn square(&self) -> bool {
        &&& self@.len() == self.n()
        &&& forall|i: int| 0 <= i < self.n() ==> #[trigger] self@[i].len() == self.n()
    }

    /// The cells of region `region`, in row-major order.
    fn get_region_cells(&self, region: u8) -> (r: Vec<Coord>)
        requires
            self.square(),
        ensures
            r@ == grid_part(map_region(self@, region as int), self.n(), self.n()),
    {
        let max_cells = self.size.max_cells() as usize;
        let ghost n = self.n();
        let ghost f = map_region(self@, region as int);
        let mut cells: Vec<Coord> = Vec::new();
        let mut row: usize = 0;
        while row < max_cells
            invariant
                self.square(),
                max_cells == n,
                n == self.n(),
                n <= 16,
                f == map_region(self@, region as int),
                0 <= row <= n,
                cells@ == grid_part(f, n, row as nat),
            decreases n - row,
        {
            let mut col: usize = 0;
            while col < max_cells
                invariant
                    self.square(),
                    max_cells == n,
                    n == self.n(),
                    n <= 16,
                    f == map_region(self@, region as int),
                    0 <= row < n,
                    0 <= col <= n,
                    cells@ == grid_part(f, n, row as nat) + row_part(f, row as nat, col as nat),
                decreases n - col,
            {
                assert(self.regions@[row as int]@ == self@[row as int]);
                if self.regions[row][col] == region {
                    cells.push(Coord { row, col });
                }
                proof {
                    let c = Coord { row, col };
                    assert(f(c) == (self@[row as int][col as int] == region));
                    assert(row_part(f, row as nat, (col + 1) as nat) == if f(c) {
                        row_part(f, row as nat, col as nat).push(c)
                    } else {
                        row_part(f, row as nat, col as nat)
                    });
                }
                col += 1;
            }
            row += 1;
        }
        cells
    }

    /// Whether region `region` is contiguous: a walk through perpendicular
    /// neighbors inside the region, from its first cell, reaches all its cells.
    pub fn check_contiguity(&self, region: u8) -> (r: bool)
        requires
            self.square(),
            grid_part(map_region(self@, region as int), self.n(), self.n()).len() > 0,
        ensures
            r == region_connected(self.n(), map_region(self@, region as int)),
    {
        let max_cells = self.size.max_cells() as usize;
        let ghost n = self.n();
        let ghost f = map_region(self@, region as int);
        let cells = self.get_region_cells(region);
        let ghost rset = cells@.to_set();
        proof {
            lemma_grid_part(f, n, n);
            cells@.unique_seq_to_set();
        }
        let first = cells[0];
        assert(cells@.contains(first));
        let mut visited: Vec<Vec<bool>> = Vec::new();
        let mut i: usize = 0;
        while i < max_cells
            invariant
                max_cells == n,
                0 <= i <= n,
                visited@.len() == i,
                forall|k: int| 0 <= k < i ==> #[trigger] visited@[k]@.len() == n,
                forall|k: int, j: int| 0 <= k < i && 0 <= j < n ==> !#[trigger] visited@[k]@[j],
            decreases n - i,
        {
            let mut row: Vec<bool> = Vec::new();
            let mut j: usize = 0;
            while j < max_cells
                invariant
                    max_cells == n,
                    0 <= j <= n,
                    row@.len() == j,
                    forall|t: int| 0 <= t < j ==> !#[trigger] row@[t],
                decreases n - j,
            {
                row.push(false);
                j += 1;
            }
            visited.push(row);
            i += 1;
        }
        let mut count: usize = 0;
        let ghost mut vset: Set<Coord> = Set::empty();
        let mut to_visit: Vec<Coord> = Vec::new();
        to_visit.push(first);
        assert(to_visit@[0] == first);
        let total = cells.len();
        while to_visit.len() > 0
            invariant
                self.square(),
                max_cells == n,
                n == self.n(),
                4 <= n <= 16,
                f == map_region(self@, region as int),
                cells@ == grid_part(f, n, n),
                rset == cells@.to_set(),
                rset.len() == total,
                total == cells@.len(),
                forall|c: Coord| #[trigger] cells@.contains(c) <==> (c.row < n && c.col < n && f(c)),
                first == cells@[0],
                visited@.len() == n,
                forall|k: int| 0 <= k < n ==> #[trigger] visited@[k]@.len() == n,
                forall|c: Coord| in_grid(n, c) ==> (visited@[c.row as int]@[c.col as int] <==> #[trigger] vset.contains(c)),
                vset.finite(),
                vset.subset_of(rset),
                count == vset.len(),
                count <= total,
                forall|k: int| 0 <= k < to_visit@.len() ==> #[trigger] rset.contains(to_visit@[k]),
                vset.contains(first) || to_visit@.contains(first),
                forall|c: Coord, k: int|
                    #![trigger vset.contains(c), neighbor_seq(n - 1, c)[k]]
                    vset.contains(c) && 0 <= k < neighbor_seq(n - 1, c).len() && f(neighbor_seq(n - 1, c)[k])
                        ==> vset.contains(neighbor_seq(n - 1, c)[k]) || to_visit@.contains(neighbor_seq(n - 1, c)[k]),
                forall|s: Set<Coord>|
                    #![trigger closed_in(n, f, s)]
                    closed_in(n, f, s) && s.contains(first) ==> vset.subset_of(s) && forall|k: int|
                        0 <= k < to_visit@.len() ==> s.contains(#[trigger] to_visit@[k]),
            decreases (total - count) * 5 + to_visit@.len(),
        {
            let ghost before = to_visit@;
            let cell = to_visit.pop().unwrap();
            assert(before == to_visit@.push(cell));
            assert(rset.contains(cell)) by {
                assert(before[before.len() - 1] == cell);
            }
            assert(cells@.contains(cell));
            if !visited[cell.row][cell.col] {
                let mut vrow: Vec<bool> = Vec::new();
                visited.set_and_swap(cell.row, &mut vrow);
                vrow.set(cell.col, true);
                visited.set(cell.row, vrow);
                let ghost old_v = vset;
                proof {
                    vset = vset.insert(cell);
                    assert(!old_v.contains(cell));
                    vstd::set_lib::lemma_len_subset(vset, rset);
                }
                count += 1;
                let neighbors = Cardinal::get_neighbors(max_cells - 1, cell);
                let ghost stack_mid = to_visit@;
                let mut k: usize = 0;
                while k < neighbors.len()
                    invariant
                        self.square(),
                        max_cells == n,
                        n == self.n(),
                        4 <= n <= 16,
                        f == map_region(self@, region as int),
                        neighbors@ == neighbor_seq(n - 1, cell),
                        in_grid(n, cell),
                        f(cell),
                        visited@.len() == n,
                        forall|t: int| 0 <= t < n ==> #[trigger] visited@[t]@.len() == n,
                        forall|c: Coord| in_grid(n, c) ==> (visited@[c.row as int]@[c.col as int] <==> #[trigger] vset.contains(c)),
                        forall|c: Coord| #[trigger] cells@.contains(c) <==> (c.row < n && c.col < n && f(c)),
                        rset == cells@.to_set(),
                        0 <= k <= neighbors@.len(),
                        to_visit@.len() <= stack_mid.len() + k,
                        to_visit@.len() >= stack_mid.len(),
                        to_visit@.take(stack_mid.len() as int) == stack_mid,
                        forall|t: int| stack_mid.len() <= t < to_visit@.len() ==> rset.contains(#[trigger] to_visit@[t]),
                        forall|t: int| stack_mid.len() <= t < to_visit@.len() ==> exists|q: int| 0 <= q < k && #[trigger] to_visit@[t] == neighbors@[q],
                        forall|q: int| 0 <= q < k && f(#[trigger] neighbors@[q]) ==> vset.contains(neighbors@[q]) || to_visit@.contains(neighbors@[q]),
                    decreases neighbors@.len() - k,
                {
                    let nb = neighbors[k];
                    proof {
                        crate::cell::lemma_neighbor_in_grid(n - 1, cell, k as int);
                    }
                    assert(self.regions@[nb.row as int]@ == self@[nb.row as int]);
                    if self.regions[nb.row][nb.col] == region && !visited[nb.row][nb.col] {
                        let ghost prev = to_visit@;
                        to_visit.push(nb);
                        proof {
                            assert(cells@.contains(nb));
                            assert(to_visit@ == prev.push(nb));
                            assert(to_visit@.take(stack_mid.len() as int) =~= prev.take(stack_mid.len() as int));
                            assert(to_visit@[prev.len() as int] == nb);
                            assert forall|t: int| stack_mid.len() <= t < to_visit@.len() implies exists|q: int| 0 <= q < k + 1 && #[trigger] to_visit@[t] == neighbors@[q] by {
                                if t < prev.len() {
                                    assert(to_visit@[t] == prev[t]);
                                } else {
                                    assert(to_visit@[t] == neighbors@[k as int]);
                                }
                            }
                            assert forall|q: int| 0 <= q < k + 1 && f(#[trigger] neighbors@[q]) implies vset.contains(neighbors@[q]) || to_visit@.contains(neighbors@[q]) by {
                                if q < k && !vset.contains(neighbors@[q]) {
                                    let t = choose|t: int| 0 <= t < prev.len() && prev[t] == neighbors@[q];
                                    assert(to_visit@[t] == neighbors@[q]);
                                }
                            }
                        }
                    } else {
                        proof {
                            assert(f(nb) == (self@[nb.row as int][nb.col as int] == region));
                        }
                    }
                    k += 1;
                }
                proof {
                    let st = to_visit@;
                    assert(st.take(stack_mid.len() as int) == stack_mid);
                    assert forall|t: int| 0 <= t < st.len() implies #[trigger] rset.contains(st[t]) by {
                        if t < stack_mid.len() {
                            assert(st.take(stack_mid.len() as int)[t] == st[t]);
                            assert(st[t] == stack_mid[t]);
                            assert(before[t] == stack_mid[t]);
                        }
                    }
                    assert forall|t: int| 0 <= t < stack_mid.len() implies #[trigger] st[t] == stack_mid[t] by {
                        assert(st.take(stack_mid.len() as int)[t] == st[t]);
                    }
                    assert(vset.contains(first) || st.contains(first)) by {
                        if !old_v.contains(first) && cell != first {
                            let t = choose|t: int| 0 <= t < before.len() && before[t] == first;
                            assert(t < stack_mid.len());
                            assert(st[t] == first);
                        }
                    }
                    assert forall|c: Coord, q: int|
                        #![trigger vset.contains(c), neighbor_seq(n - 1, c)[q]]
                        vset.contains(c) && 0 <= q < neighbor_seq(n - 1, c).len() && f(neighbor_seq(n - 1, c)[q])
                            implies vset.contains(neighbor_seq(n - 1, c)[q]) || st.contains(neighbor_seq(n - 1, c)[q]) by {
                        let d = neighbor_seq(n - 1, c)[q];
                        if c == cell {
                            assert(neighbors@[q] == d);
                        } else {
                            assert(old_v.contains(c));
                            if !old_v.contains(d) && !vset.contains(d) {
                                assert(before.contains(d));
                                let t = choose|t: int| 0 <= t < before.len() && before[t] == d;
                                if t < stack_mid.len() {
                                    assert(st[t] == d);
                                } else {
                                    assert(d == cell);
                                }
                            }
                        }
                    }
                    assert forall|s: Set<Coord>|
                        #![trigger closed_in(n, f, s)]
                        closed_in(n, f, s) && s.contains(first) implies vset.subset_of(s) && forall|t: int|
                            0 <= t < st.len() ==> s.contains(#[trigger] st[t]) by {
                        assert(s.contains(before[before.len() - 1]));
                        assert forall|t: int| 0 <= t < st.len() implies s.contains(#[trigger] st[t]) by {
                            if t < stack_mid.len() {
                                assert(st[t] == before[t]);
                            } else {
                                let q = choose|q: int| 0 <= q < neighbors@.len() && #[trigger] st[t] == neighbors@[q];
                                assert(s.contains(cell));
                                assert(neighbor_seq(n - 1, cell)[q] == st[t]);
                                assert(f(st[t])) by {
                                    assert(rset.contains(st[t]));
                                    assert(cells@.contains(st[t]));
                                }
                            }
                        }
                    }
                }
            } else {
                proof {
                    assert(vset.contains(cell));
                    assert forall|c: Coord, q: int|
                        #![trigger vset.contains(c), neighbor_seq(n - 1, c)[q]]
                        vset.contains(c) && 0 <= q < neighbor_seq(n - 1, c).len() && f(neighbor_seq(n - 1, c)[q])
                            implies vset.contains(neighbor_seq(n - 1, c)[q]) || to_visit@.contains(neighbor_seq(n - 1, c)[q]) by {
                        let d = neighbor_seq(n - 1, c)[q];
                        if !vset.contains(d) {
                            assert(before.contains(d));
                            let t = choose|t: int| 0 <= t < before.len() && before[t] == d;
                            if t < to_visit@.len() {
                                assert(to_visit@[t] == d);
                            }
                        }
                    }
                    assert(vset.contains(first) || to_visit@.contains(first)) by {
                        if !vset.contains(first) {
                            let t = choose|t: int| 0 <= t < before.len() && before[t] == first;
                            if t < to_visit@.len() {
                                assert(to_visit@[t] == first);
                            }
                        }
                    }
                    assert forall|t: int| 0 <= t < to_visit@.len() implies #[trigger] rset.contains(to_visit@[t]) by {
                        assert(before[t] == to_visit@[t]);
                    }
                    assert forall|s: Set<Coord>|
                        #![trigger closed_in(n, f, s)]
                        closed_in(n, f, s) && s.contains(first) implies vset.subset_of(s) && forall|t: int|
                            0 <= t < to_visit@.len() ==> s.contains(#[trigger] to_visit@[t]) by {
                        assert forall|t: int| 0 <= t < to_visit@.len() implies s.contains(#[trigger] to_visit@[t]) by {
                            assert(before[t] == to_visit@[t]);
                        }
                    }
                }
            }
        }
        proof {
            assert(vset.contains(first));
            assert(closed_in(n, f, vset));
            if region_connected(n, f) {
                assert(rset.subset_of(vset)) by {
                    assert forall|c: Coord| rset.contains(c) implies vset.contains(c) by {
                        assert(cells@.contains(c));
                    }
                }
                assert(vset =~= rset);
            }
            if count == total {
                lemma_subset_same_len(vset, rset);
                assert forall|s: Set<Coord>|
                    #![trigger closed_in(n, f, s)]
                    closed_in(n, f, s) && s.contains(cells@[0]) implies forall|c: Coord|
                        in_grid(n, c) && f(c) ==> #[trigger] s.contains(c) by {
                    assert forall|c: Coord| in_grid(n, c) && f(c) implies #[trigger] s.contains(c) by {
                        assert(cells@.contains(c));
                        assert(rset.contains(c));
                    }
                }
            }
        }
        count == total
    }
}

/// The region index of every cell in the regular layout of `size`.
pub open spec fn regular_map(size: BoardSize) -> Seq<Seq<u8>> {
    Seq::new(
        size.cells(),
        |r: int| Seq::new(size.cells(), |c: int| BoardKind::Regular.region_at(size, Coord { row: r as usize, col: c as usize }) as u8),
    )
}

/// The region index of every cell of a list of rows.
pub open spec fn rows_view(regions: Vec<Vec<u8>>) -> Seq<Seq<u8>> {
    regions@.map_values(|row: Vec<u8>| row@)
}

/// `x`, capped at `n + 1`.
pub open spec fn capped(x: nat, n: nat) -> nat {
    if x <= n {
        x
    } else {
        n + 1
    }
}

/// The result [`RegionMap::is_valid`] reports for a map and a row length.
pub open spec fn check_result(m: Seq<Seq<u8>>, n: nat) -> Result<(), IrregularMapError> {
    match map_error(m, n) {
        None => Ok(()),
        Some(e) => Err(e),
    }
}

impl RegionMap {
    /// The regular layout of `size`: `width` x `height` blocks, numbered row
    /// band by row band.
    pub fn new(size: &BoardSize) -> (r: RegionMap)
        ensures
            r@ == regular_map(*size),
            r.n() == size.cells(),
            r.square(),
            r.ready(),
            r.current() == 0,
    {
        let max_cells = size.max_cells();
        let width = size.width();
        let height = size.height();
        let ghost n = size.cells();
        proof {
            size.lemma_region_shape();
        }
        let mut regions: Vec<Vec<u8>> = Vec::new();
        let mut row: u8 = 0;
        while row < max_cells
            invariant
                max_cells == n,
                width == size.region_width(),
                height == size.region_height(),
                2 <= width <= 4,
                2 <= height <= 4,
                width * height == n,
                0 <= row <= n,
                regions@.len() == row,
                forall|r: int| 0 <= r < row ==> #[trigger] regions@[r]@ == regular_map(*size)[r],
            decreases n - row,
        {
            let mut line: Vec<u8> = Vec::new();
            let mut col: u8 = 0;
            while col < max_cells
                invariant
                    max_cells == n,
                    width == size.region_width(),
                    height == size.region_height(),
                    2 <= width <= 4,
                    2 <= height <= 4,
                    width * height == n,
                    0 <= row < n,
                    0 <= col <= n,
                    line@.len() == col,
                    forall|c: int| 0 <= c < col ==> #[trigger] line@[c] == regular_map(*size)[row as int][c],
                decreases n - col,
            {
                proof {
                    assert(row / height * height <= row) by (nonlinear_arith)
                        requires
                            height > 0,
                    ;
                    assert(col / width < height) by (nonlinear_arith)
                        requires
                            width > 0,
                            col < width * height,
                    ;
                }
                let value = row / height * height + col / width;
                line.push(value);
                col += 1;
            }
            regions.push(line);
            proof {
                assert(regions@[row as int]@ =~= regular_map(*size)[row as int]);
            }
            row += 1;
        }
        let r = RegionMap { regions, size: *size, current_region: 0 };
        proof {
            assert(r@ =~= regular_map(*size));
        }
        r
    }

    /// Check the map: it must have a row's worth of rows, every row must hold
    /// a row's worth of region indexes below the row length (the first bad
    /// row decides between
    /// [`IrregularMapError::InvalidMapDimensions`] and
    /// [`IrregularMapError::InvalidRegionIndex`]), every region must hold a
    /// row's worth of cells, and every region must be contiguous.
    pub fn is_valid(&self) -> (r: Result<(), IrregularMapError>)
        ensures
            r == check_result(self@, self.n()),
    {
        let max_cells = self.size.max_cells() as usize;
        let ghost n = self.n();
        let ghost m = self@;
        proof {
            self.size.lemma_region_shape();
        }
        if self.regions.len() != max_cells {
            return Err(IrregularMapError::InvalidMapDimensions);
        }
        let mut counts: Vec<usize> = Vec::new();
        let mut k: usize = 0;
        while k < max_cells
            invariant
                0 <= k <= max_cells,
                counts@.len() == k,
                forall|t: int| 0 <= t < k ==> #[trigger] counts@[t] == 0,
            decreases max_cells - k,
        {
            counts.push(0);
            k += 1;
        }
        let mut i: usize = 0;
        while i < self.regions.len()
            invariant
                m == self@,
                m.len() == n,
                max_cells == n,
                4 <= n <= 16,
                0 <= i <= m.len(),
                counts@.len() == n,
                forall|k: int| 0 <= k < i ==> row_ok(#[trigger] m[k], n),
                n == self.n(),
                forall|r: int| 0 <= r < n ==> #[trigger] counts@[r] == capped(map_count(m, r, i as nat), n),
            decreases m.len() - i,
        {
            let row = &self.regions[i];
            assert(row@ == m[i as int]);
            if row.len() != max_cells {
                proof {
                    assert(!row_ok(m[i as int], n));
                    lemma_first_bad_row(m, n, i as int);
                }
                return Err(IrregularMapError::InvalidMapDimensions);
            }
            let ghost before = counts@;
            let mut j: usize = 0;
            while j < row.len()
                invariant
                    m == self@,
                    m.len() == n,
                m.len() == n,
                    row@ == m[i as int],
                    row@.len() == n,
                    max_cells == n,
                    4 <= n <= 16,
                    0 <= i < m.len(),
                    0 <= j <= n,
                    counts@.len() == n,
                    forall|t: int| 0 <= t < j ==> #[trigger] row@[t] < n,
                    forall|k: int| 0 <= k < i ==> row_ok(#[trigger] m[k], n),
                    n == self.n(),
                    forall|r: int| 0 <= r < n ==> #[trigger] counts@[r] == capped(
                        map_count(m, r, i as nat) + row_count(m[i as int], r, j as nat),
                        n,
                    ),
                decreases n - j,
            {
                let col = row[j];
                if col as usize >= max_cells {
                    proof {
                        assert(!row_ok(m[i as int], n));
                        lemma_first_bad_row(m, n, i as int);
                    }
                    return Err(IrregularMapError::InvalidRegionIndex);
                }
                let c = counts[col as usize];
                let next = if c < max_cells + 1 { c + 1 } else { c };
                let ghost prev = counts@;
                counts.set(col as usize, if next > max_cells { max_cells + 1 } else { next });
                proof {
                    assert forall|r: int| 0 <= r < n implies #[trigger] counts@[r] == capped(
                        map_count(m, r, i as nat) + row_count(m[i as int], r, (j + 1) as nat),
                        n,
                    ) by {
                        assert(row_count(m[i as int], r, (j + 1) as nat) == row_count(m[i as int], r, j as nat) + if m[i as int][j as int] == r {
                            1nat
                        } else {
                            0nat
                        });
                        if r != col as int {
                            assert(counts@[r] == prev[r]);
                        }
                    }
                }
                j += 1;
            }
            proof {
                assert(row_ok(m[i as int], n));
                assert forall|r: int| 0 <= r < n implies #[trigger] counts@[r] == capped(map_count(m, r, (i + 1) as nat), n) by {
                    assert(map_count(m, r, (i + 1) as nat) == map_count(m, r, i as nat) + row_count(m[i as int], r, m[i as int].len()));
                }
            }
            i += 1;
        }
        proof {
            assert(!has_bad_row(m, n));
        }
        let mut r: usize = 0;
        while r < max_cells
            invariant
                m == self@,
                m.len() == n,
                max_cells == n,
                4 <= n <= 16,
                0 <= r <= n,
                counts@.len() == n,
                !has_bad_row(m, n),
                n == self.n(),
                forall|t: int| 0 <= t < n ==> #[trigger] counts@[t] == capped(map_count(m, t, m.len()), n),
                forall|t: int| 0 <= t < r ==> #[trigger] map_count(m, t, m.len()) == n,
            decreases n - r,
        {
            if counts[r] != max_cells {
                assert(map_count(m, r as int, m.len()) != n);
                return Err(IrregularMapError::UnbalancedRegion);
            }
            r += 1;
        }
        proof {
            lemma_square(m, n);
        }
        let mut region: u8 = 0;
        while (region as usize) < max_cells
            invariant
                m == self@,
                m.len() == n,
                max_cells == n,
                4 <= n <= 16,
                0 <= region <= n,
                m.len() == n,
                n == self.n(),
                self.square(),
                !has_bad_row(m, n),
                forall|t: int| 0 <= t < n ==> #[trigger] map_count(m, t, m.len()) == n,
                forall|t: int| 0 <= t < region ==> #[trigger] region_connected(n, map_region(m, t)),
            decreases n - region,
        {
            proof {
                assert forall|t: int| 0 <= t < n implies #[trigger] m[t].len() == n by {
                    assert(row_ok(m[t], n));
                }
                lemma_grid_part_count(m, region as int, n, n);
                assert(map_count(m, region as int, m.len()) == n);
            }
            if !self.check_contiguity(region) {
                return Err(IrregularMapError::NonContiguousRegion);
            }
            region += 1;
        }
        Ok(())
    }
}

impl IrregularMap {
    /// Create a new IrregularMap from a vector of vectors.
    ///
    /// Each inner vector represents a row, and each value in the inner vectors
    /// represents the region index for that cell.
    /// Therefore, the outer vector's length must match each inner vector's length.
    ///
    /// This constructor will also ensure that the regions are not malformed:
    /// the checks of [`RegionMap::is_valid`] run for the board size whose rows
    /// are as long as the number of rows given (a 9x9 board when that length
    /// is not a supported size).
    pub fn new(regions: Vec<Vec<u8>>) -> (r: Result<IrregularMap, IrregularMapError>)
        ensures
            ({
                let n = BoardSize::of_len((regions@.len() as u8) as int).cells();
                match r {
                    Ok(map) => map_error(rows_view(regions), n) is None && map@ == rows_view(regions),
                    Err(e) => map_error(rows_view(regions), n) == Some(e),
                }
            }),
    {
        let size = regions.len();
        let mut region_map = RegionMap::new(&BoardSize::from_u8(size as u8));
        region_map.regions = regions;
        match region_map.is_valid() {
            Ok(()) => {
                proof {
                    lemma_no_error_valid(region_map@, region_map.n());
                }
                Ok(IrregularMap::from_valid(region_map.regions))
            },
            Err(e) => Err(e),
        }
    }
}

/// Two regions that touch, and the cells by which they touch: cells of the
/// first region, then cells of the second.
pub type Border = ((u8, u8), (Vec<Coord>, Vec<Coord>));

/// `c` is a cell of the map `m` in region `r`.
pub open spec fn cell_in(m: Seq<Seq<u8>>, n: nat, c: Coord, r: int) -> bool {
    in_grid(n, c) && m[c.row as int][c.col as int] == r
}

/// Whether `c` occurs in `v`.
fn has_coord(v: &Vec<Coord>, c: Coord) -> (r: bool)
    ensures
        r == v@.contains(c),
{
    let mut i: usize = 0;
    while i < v.len()
        invariant
            0 <= i <= v.len(),
            forall|k: int| 0 <= k < i ==> v@[k] != c,
        decreases v.len() - i,
    {
        if v[i] == c {
            return true;
        }
        i += 1;
    }
    false
}

/// `a`, a cell of region `region`, has among its neighbors `b`, a cell of
/// another region.
pub open spec fn touching(m: Seq<Seq<u8>>, n: nat, region: u8, a: Coord, b: Coord) -> bool {
    &&& cell_in(m, n, a, region as int)
    &&& in_grid(n, b)
    &&& m[b.row as int][b.col as int] != region
    &&& neighbor_seq(n - 1, a).contains(b)
}

/// Scanning the cells in row-major order, and the neighbors of each, the
/// pair `(a, b)` comes before the `k`-th neighbor of the cell `(row, col)`.
pub open spec fn scanned(n: nat, a: Coord, b: Coord, row: int, col: int, k: int) -> bool {
    ||| (a.row as int) < row
    ||| a.row as int == row && (a.col as int) < col
    ||| a.row as int == row && a.col as int == col && neighbor_seq(n - 1, a).take(k).contains(b)
}

/// An entry of the borders of `region`: another region and the cells by
/// which the two touch, each listed once.
pub open spec fn border_ok(m: Seq<Seq<u8>>, n: nat, region: u8, entry: Border) -> bool {
    &&& entry.0.0 == region
    &&& entry.0.1 != region
    &&& entry.1.0@.len() > 0
    &&& entry.1.1@.len() > 0
    &&& entry.1.0@.no_duplicates()
    &&& entry.1.1@.no_duplicates()
    &&& forall|k: int| 0 <= k < entry.1.0@.len() ==> cell_in(m, n, #[trigger] entry.1.0@[k], region as int)
    &&& forall|k: int| 0 <= k < entry.1.1@.len() ==> cell_in(m, n, #[trigger] entry.1.1@[k], entry.0.1 as int)
}

/// The cells of `region` that touch a cell of region `other` in a pair
/// scanned before the `k`-th neighbor of the cell `(row, col)`.
pub open spec fn near_cells(m: Seq<Seq<u8>>, n: nat, region: u8, other: u8, row: int, col: int, k: int) -> Set<Coord> {
    Set::new(
        |a: Coord|
            exists|b: Coord|
                #[trigger] touching(m, n, region, a, b) && m[b.row as int][b.col as int] == other && scanned(n, a, b, row, col, k),
    )
}

/// The cells of region `other` that touch a cell of `region` in a pair
/// scanned before the `k`-th neighbor of the cell `(row, col)`.
pub open spec fn far_cells(m: Seq<Seq<u8>>, n: nat, region: u8, other: u8, row: int, col: int, k: int) -> Set<Coord> {
    Set::new(
        |b: Coord|
            exists|a: Coord|
                #[trigger] touching(m, n, region, a, b) && m[b.row as int][b.col as int] == other && scanned(n, a, b, row, col, k),
    )
}

/// `bs` records exactly the touching pairs scanned before the `k`-th
/// neighbor of the cell `(row, col)`: one entry per bordering region met.
pub open spec fn borders_upto(m: Seq<Seq<u8>>, n: nat, region: u8, bs: Seq<Border>, row: int, col: int, k: int) -> bool {
    &&& forall|e: int| 0 <= e < bs.len() ==> border_ok(m, n, region, #[trigger] bs[e])
    &&& forall|e1: int, e2: int|
        #![trigger bs[e1], bs[e2]]
        0 <= e1 < bs.len() && 0 <= e2 < bs.len() && e1 != e2 ==> bs[e1].0.1 != bs[e2].0.1
    &&& forall|e: int|
        0 <= e < bs.len() ==> (#[trigger] bs[e]).1.0@.to_set() == near_cells(m, n, region, bs[e].0.1, row, col, k)
    &&& forall|e: int|
        0 <= e < bs.len() ==> (#[trigger] bs[e]).1.1@.to_set() == far_cells(m, n, region, bs[e].0.1, row, col, k)
    &&& forall|a: Coord, b: Coord|
        #[trigger] touching(m, n, region, a, b) && scanned(n, a, b, row, col, k) ==> exists|e: int|
            #![trigger bs[e]]
            0 <= e < bs.len() && bs[e].0.1 == m[b.row as int][b.col as int]
}

/// The entry of `bs` for the region `other`, if there is one.
fn find_border(bs: &Vec<Border>, other: u8) -> (r: Option<usize>)
    ensures
        r matches Some(e) ==> e < bs@.len() && bs@[e as int].0.1 == other,
        r is None ==> forall|e: int| 0 <= e < bs@.len() ==> #[trigger] bs@[e].0.1 != other,
{
    let mut e: usize = 0;
    while e < bs.len()
        invariant
            0 <= e <= bs@.len(),
            forall|q: int| 0 <= q < e ==> #[trigger] bs@[q].0.1 != other,
        decreases bs@.len() - e,
    {
        if bs[e].0.1 == other {
            return Some(e);
        }
        e += 1;
    }
    None
}

/// One neighbor further, the scanned pairs gain the pair of the cell and
/// that neighbor.
proof fn lemma_scanned_step(n: nat, cell: Coord, coord: Coord, row: int, col: int, k: int)
    requires
        cell.row as int == row,
        cell.col as int == col,
        0 <= k < neighbor_seq(n - 1, cell).len(),
        neighbor_seq(n - 1, cell)[k] == coord,
    ensures
        forall|a: Coord, b: Coord|
            #[trigger] scanned(n, a, b, row, col, k + 1) <==> (scanned(n, a, b, row, col, k) || (a == cell && b == coord)),
{
    let ns = neighbor_seq(n - 1, cell);
    assert(ns.take(k + 1) == ns.take(k).push(coord));
    assert forall|a: Coord, b: Coord|
        #[trigger] scanned(n, a, b, row, col, k + 1) <==> (scanned(n, a, b, row, col, k) || (a == cell && b == coord)) by {
        if a.row as int == row && a.col as int == col {
            assert(a == cell);
            if ns.take(k).contains(b) {
                let j = choose|j: int| 0 <= j < k && #[trigger] ns.take(k)[j] == b;
                assert(ns.take(k + 1)[j] == b);
            }
            if ns.take(k + 1).contains(b) {
                let j = choose|j: int| 0 <= j < k + 1 && #[trigger] ns.take(k + 1)[j] == b;
                if j < k {
                    assert(ns.take(k)[j] == b);
                }
            }
            if b == coord {
                assert(ns.take(k + 1)[k] == coord);
            }
        }
    }
}

/// How the touching cells of every region change one neighbor further.
proof fn lemma_cells_step(m: Seq<Seq<u8>>, n: nat, region: u8, cell: Coord, coord: Coord, row: int, col: int, k: int)
    requires
        cell.row as int == row,
        cell.col as int == col,
        0 <= k < neighbor_seq(n - 1, cell).len(),
        neighbor_seq(n - 1, cell)[k] == coord,
    ensures
        forall|other: u8|
            #[trigger] near_cells(m, n, region, other, row, col, k + 1) == if touching(m, n, region, cell, coord)
                && m[coord.row as int][coord.col as int] == other {
                near_cells(m, n, region, other, row, col, k).insert(cell)
            } else {
                near_cells(m, n, region, other, row, col, k)
            },
        forall|other: u8|
            #[trigger] far_cells(m, n, region, other, row, col, k + 1) == if touching(m, n, region, cell, coord)
                && m[coord.row as int][coord.col as int] == other {
                far_cells(m, n, region, other, row, col, k).insert(coord)
            } else {
                far_cells(m, n, region, other, row, col, k)
            },
{
    lemma_scanned_step(n, cell, coord, row, col, k);
    assert forall|other: u8|
        #[trigger] near_cells(m, n, region, other, row, col, k + 1) == if touching(m, n, region, cell, coord)
            && m[coord.row as int][coord.col as int] == other {
            near_cells(m, n, region, other, row, col, k).insert(cell)
        } else {
            near_cells(m, n, region, other, row, col, k)
        } by {
        let t = touching(m, n, region, cell, coord) && m[coord.row as int][coord.col as int] == other;
        let s1 = near_cells(m, n, region, other, row, col, k + 1);
        let s0 = near_cells(m, n, region, other, row, col, k);
        assert forall|a: Coord| s1.contains(a) <==> (if t { s0.insert(cell) } else { s0 }).contains(a) by {
            if s1.contains(a) {
                let b = choose|b: Coord|
                    #[trigger] touching(m, n, region, a, b) && m[b.row as int][b.col as int] == other && scanned(n, a, b, row, col, k + 1);
                if !scanned(n, a, b, row, col, k) {
                    assert(a == cell && b == coord);
                }
            }
            if s0.contains(a) {
                let b = choose|b: Coord|
                    #[trigger] touching(m, n, region, a, b) && m[b.row as int][b.col as int] == other && scanned(n, a, b, row, col, k);
                assert(scanned(n, a, b, row, col, k + 1));
            }
            if t && a == cell {
                assert(scanned(n, cell, coord, row, col, k + 1));
            }
        }
        assert(s1 =~= (if t { s0.insert(cell) } else { s0 }));
    }
    assert forall|other: u8|
        #[trigger] far_cells(m, n, region, other, row, col, k + 1) == if touching(m, n, region, cell, coord)
            && m[coord.row as int][coord.col as int] == other {
            far_cells(m, n, region, other, row, col, k).insert(coord)
        } else {
            far_cells(m, n, region, other, row, col, k)
        } by {
        let t = touching(m, n, region, cell, coord) && m[coord.row as int][coord.col as int] == other;
        let s1 = far_cells(m, n, region, other, row, col, k + 1);
        let s0 = far_cells(m, n, region, other, row, col, k);
        assert forall|b: Coord| s1.contains(b) <==> (if t { s0.insert(coord) } else { s0 }).contains(b) by {
            if s1.contains(b) {
                let a = choose|a: Coord|
                    #[trigger] touching(m, n, region, a, b) && m[b.row as int][b.col as int] == other && scanned(n, a, b, row, col, k + 1);
                if !scanned(n, a, b, row, col, k) {
                    assert(a == cell && b == coord);
                }
            }
            if s0.contains(b) {
                let a = choose|a: Coord|
                    #[trigger] touching(m, n, region, a, b) && m[b.row as int][b.col as int] == other && scanned(n, a, b, row, col, k);
                assert(scanned(n, a, b, row, col, k + 1));
            }
            if t && b == coord {
                assert(scanned(n, cell, coord, row, col, k + 1));
            }
        }
        assert(s1 =~= (if t { s0.insert(coord) } else { s0 }));
    }
}

/// Adding the touching pair `(cell, coord)` to the entry of its region keeps
/// the record exact one neighbor further.
proof fn lemma_border_grow(
    m: Seq<Seq<u8>>,
    n: nat,
    region: u8,
    bs: Seq<Border>,
    e: int,
    entry: Border,
    cell: Coord,
    coord: Coord,
    row: int,
    col: int,
    k: int,
)
    requires
        borders_upto(m, n, region, bs, row, col, k),
        0 <= e < bs.len(),
        bs[e].0.1 == m[coord.row as int][coord.col as int],
        touching(m, n, region, cell, coord),
        cell.row as int == row,
        cell.col as int == col,
        0 <= k < neighbor_seq(n - 1, cell).len(),
        neighbor_seq(n - 1, cell)[k] == coord,
        entry.0 == bs[e].0,
        entry.1.0@ == if bs[e].1.0@.contains(cell) { bs[e].1.0@ } else { bs[e].1.0@.push(cell) },
        entry.1.1@ == if bs[e].1.1@.contains(coord) { bs[e].1.1@ } else { bs[e].1.1@.push(coord) },
    ensures
        borders_upto(m, n, region, bs.update(e, entry), row, col, k + 1),
{
    let bs2 = bs.update(e, entry);
    let old_entry = bs[e];
    lemma_scanned_step(n, cell, coord, row, col, k);
    lemma_cells_step(m, n, region, cell, coord, row, col, k);
    assert(border_ok(m, n, region, old_entry));
    assert(border_ok(m, n, region, entry)) by {
        assert forall|q: int| 0 <= q < entry.1.0@.len() implies cell_in(m, n, #[trigger] entry.1.0@[q], region as int) by {
            if q < old_entry.1.0@.len() {
                assert(entry.1.0@[q] == old_entry.1.0@[q]);
            }
        }
        assert forall|q: int| 0 <= q < entry.1.1@.len() implies cell_in(m, n, #[trigger] entry.1.1@[q], entry.0.1 as int) by {
            if q < old_entry.1.1@.len() {
                assert(entry.1.1@[q] == old_entry.1.1@[q]);
            }
        }
    }
    assert(entry.1.0@.to_set() == old_entry.1.0@.to_set().insert(cell)) by {
        if !old_entry.1.0@.contains(cell) {
            old_entry.1.0@.lemma_push_to_set_commute(cell);
        } else {
            assert(old_entry.1.0@.to_set().insert(cell) =~= old_entry.1.0@.to_set());
        }
    }
    assert(entry.1.1@.to_set() == old_entry.1.1@.to_set().insert(coord)) by {
        if !old_entry.1.1@.contains(coord) {
            old_entry.1.1@.lemma_push_to_set_commute(coord);
        } else {
            assert(old_entry.1.1@.to_set().insert(coord) =~= old_entry.1.1@.to_set());
        }
    }
    assert forall|x: int| 0 <= x < bs2.len() implies border_ok(m, n, region, #[trigger] bs2[x]) by {
        if x != e {
            assert(bs2[x] == bs[x]);
        }
    }
    assert forall|e1: int, e2: int|
        #![trigger bs2[e1], bs2[e2]]
        0 <= e1 < bs2.len() && 0 <= e2 < bs2.len() && e1 != e2 implies bs2[e1].0.1 != bs2[e2].0.1 by {
        assert(bs[e1].0.1 != bs[e2].0.1);
    }
    assert forall|x: int|
        0 <= x < bs2.len() implies (#[trigger] bs2[x]).1.0@.to_set() == near_cells(m, n, region, bs2[x].0.1, row, col, k + 1) by {
        assert(bs[x].1.0@.to_set() == near_cells(m, n, region, bs[x].0.1, row, col, k));
        if x != e {
            assert(bs2[x] == bs[x]);
            assert(bs[x].0.1 != bs[e].0.1);
        }
    }
    assert forall|x: int|
        0 <= x < bs2.len() implies (#[trigger] bs2[x]).1.1@.to_set() == far_cells(m, n, region, bs2[x].0.1, row, col, k + 1) by {
        assert(bs[x].1.1@.to_set() == far_cells(m, n, region, bs[x].0.1, row, col, k));
        if x != e {
            assert(bs2[x] == bs[x]);
            assert(bs[x].0.1 != bs[e].0.1);
        }
    }
    assert forall|a: Coord, b: Coord|
        #[trigger] touching(m, n, region, a, b) && scanned(n, a, b, row, col, k + 1) implies exists|x: int|
            #![trigger bs2[x]]
            0 <= x < bs2.len() && bs2[x].0.1 == m[b.row as int][b.col as int] by {
        if a == cell && b == coord {
            assert(bs2[e].0.1 == m[b.row as int][b.col as int]);
        } else {
            assert(scanned(n, a, b, row, col, k));
            let x = choose|x: int| #![trigger bs[x]] 0 <= x < bs.len() && bs[x].0.1 == m[b.row as int][b.col as int];
            assert(bs2[x].0.1 == bs[x].0.1);
        }
    }
}

/// Adding a new entry for the region of `coord`, which has none yet, keeps
/// the record exact one neighbor further.
proof fn lemma_border_new(
    m: Seq<Seq<u8>>,
    n: nat,
    region: u8,
    bs: Seq<Border>,
    bs2: Seq<Border>,
    cell: Coord,
    coord: Coord,
    row: int,
    col: int,
    k: int,
)
    requires
        borders_upto(m, n, region, bs, row, col, k),
        forall|e: int| 0 <= e < bs.len() ==> #[trigger] bs[e].0.1 != m[coord.row as int][coord.col as int],
        touching(m, n, region, cell, coord),
        cell.row as int == row,
        cell.col as int == col,
        0 <= k < neighbor_seq(n - 1, cell).len(),
        neighbor_seq(n - 1, cell)[k] == coord,
        bs2.len() == bs.len() + 1,
        forall|e: int| 0 <= e < bs.len() ==> #[trigger] bs2[e] == bs[e],
        bs2[bs.len() as int].0 == (region, m[coord.row as int][coord.col as int]),
        bs2[bs.len() as int].1.0@ == seq![cell],
        bs2[bs.len() as int].1.1@ == seq![coord],
    ensures
        borders_upto(m, n, region, bs2, row, col, k + 1),
{
    let last = bs.len() as int;
    let entry = bs2[last];
    let other = m[coord.row as int][coord.col as int];
    lemma_scanned_step(n, cell, coord, row, col, k);
    lemma_cells_step(m, n, region, cell, coord, row, col, k);
    assert(border_ok(m, n, region, entry)) by {
        assert forall|q: int| 0 <= q < entry.1.0@.len() implies cell_in(m, n, #[trigger] entry.1.0@[q], region as int) by {
            assert(entry.1.0@[q] == cell);
        }
        assert forall|q: int| 0 <= q < entry.1.1@.len() implies cell_in(m, n, #[trigger] entry.1.1@[q], entry.0.1 as int) by {
            assert(entry.1.1@[q] == coord);
        }
    }
    assert forall|x: int| 0 <= x < bs2.len() implies border_ok(m, n, region, #[trigger] bs2[x]) by {
        if x != last {
            assert(bs2[x] == bs[x]);
        }
    }
    assert forall|e1: int, e2: int|
        #![trigger bs2[e1], bs2[e2]]
        0 <= e1 < bs2.len() && 0 <= e2 < bs2.len() && e1 != e2 implies bs2[e1].0.1 != bs2[e2].0.1 by {
        if e1 == last {
            assert(bs2[e2] == bs[e2]);
        } else if e2 == last {
            assert(bs2[e1] == bs[e1]);
        } else {
            assert(bs2[e1] == bs[e1]);
            assert(bs2[e2] == bs[e2]);
            assert(bs[e1].0.1 != bs[e2].0.1);
        }
    }
    // no pair met so far touches the region of `coord`
    assert(near_cells(m, n, region, other, row, col, k) =~= Set::<Coord>::empty()) by {
        assert forall|a: Coord| !near_cells(m, n, region, other, row, col, k).contains(a) by {
            if near_cells(m, n, region, other, row, col, k).contains(a) {
                let b = choose|b: Coord|
                    #[trigger] touching(m, n, region, a, b) && m[b.row as int][b.col as int] == other && scanned(n, a, b, row, col, k);
                let x = choose|x: int| #![trigger bs[x]] 0 <= x < bs.len() && bs[x].0.1 == m[b.row as int][b.col as int];
            }
        }
    }
    assert(far_cells(m, n, region, other, row, col, k) =~= Set::<Coord>::empty()) by {
        assert forall|b: Coord| !far_cells(m, n, region, other, row, col, k).contains(b) by {
            if far_cells(m, n, region, other, row, col, k).contains(b) {
                let a = choose|a: Coord|
                    #[trigger] touching(m, n, region, a, b) && m[b.row as int][b.col as int] == other && scanned(n, a, b, row, col, k);
                let x = choose|x: int| #![trigger bs[x]] 0 <= x < bs.len() && bs[x].0.1 == m[b.row as int][b.col as int];
            }
        }
    }
    assert(seq![cell].to_set() =~= Set::<Coord>::empty().insert(cell)) by {
        assert(seq![cell][0] == cell);
        assert(seq![cell].contains(cell));
    }
    assert(seq![coord].to_set() =~= Set::<Coord>::empty().insert(coord)) by {
        assert(seq![coord][0] == coord);
        assert(seq![coord].contains(coord));
    }
    assert forall|x: int|
        0 <= x < bs2.len() implies (#[trigger] bs2[x]).1.0@.to_set() == near_cells(m, n, region, bs2[x].0.1, row, col, k + 1) by {
        if x != last {
            assert(bs2[x] == bs[x]);
            assert(bs[x].1.0@.to_set() == near_cells(m, n, region, bs[x].0.1, row, col, k));
        }
    }
    assert forall|x: int|
        0 <= x < bs2.len() implies (#[trigger] bs2[x]).1.1@.to_set() == far_cells(m, n, region, bs2[x].0.1, row, col, k + 1) by {
        if x != last {
            assert(bs2[x] == bs[x]);
            assert(bs[x].1.1@.to_set() == far_cells(m, n, region, bs[x].0.1, row, col, k));
        }
    }
    assert forall|a: Coord, b: Coord|
        #[trigger] touching(m, n, region, a, b) && scanned(n, a, b, row, col, k + 1) implies exists|x: int|
            #![trigger bs2[x]]
            0 <= x < bs2.len() && bs2[x].0.1 == m[b.row as int][b.col as int] by {
        if a == cell && b == coord {
            assert(bs2[last].0.1 == m[b.row as int][b.col as int]);
        } else {
            assert(scanned(n, a, b, row, col, k));
            let x = choose|x: int| #![trigger bs[x]] 0 <= x < bs.len() && bs[x].0.1 == m[b.row as int][b.col as int];
            assert(bs2[x] == bs[x]);
        }
    }
}

/// A neighbor in the same region adds no touching pair.
proof fn lemma_scan_skip(m: Seq<Seq<u8>>, n: nat, region: u8, bs: Seq<Border>, cell: Coord, coord: Coord, row: int, col: int, k: int)
    requires
        borders_upto(m, n, region, bs, row, col, k),
        m[coord.row as int][coord.col as int] == region,
        cell.row as int == row,
        cell.col as int == col,
        0 <= k < neighbor_seq(n - 1, cell).len(),
        neighbor_seq(n - 1, cell)[k] == coord,
    ensures
        borders_upto(m, n, region, bs, row, col, k + 1),
{
    lemma_scanned_step(n, cell, coord, row, col, k);
    lemma_cells_step(m, n, region, cell, coord, row, col, k);
    assert(!touching(m, n, region, cell, coord));
    assert forall|x: int|
        0 <= x < bs.len() implies (#[trigger] bs[x]).1.0@.to_set() == near_cells(m, n, region, bs[x].0.1, row, col, k + 1) by {
    }
    assert forall|x: int|
        0 <= x < bs.len() implies (#[trigger] bs[x]).1.1@.to_set() == far_cells(m, n, region, bs[x].0.1, row, col, k + 1) by {
    }
    assert forall|a: Coord, b: Coord|
        #[trigger] touching(m, n, region, a, b) && scanned(n, a, b, row, col, k + 1) implies exists|x: int|
            #![trigger bs[x]]
            0 <= x < bs.len() && bs[x].0.1 == m[b.row as int][b.col as int] by {
        assert(scanned(n, a, b, row, col, k));
    }
}

/// Two scan positions that agree on every touching pair record the same cells.
proof fn lemma_same_scan(m: Seq<Seq<u8>>, n: nat, region: u8, bs: Seq<Border>, row: int, col: int, k: int, row2: int, col2: int, k2: int)
    requires
        borders_upto(m, n, region, bs, row, col, k),
        forall|a: Coord, b: Coord|
            #[trigger] touching(m, n, region, a, b) ==> (scanned(n, a, b, row, col, k) <==> scanned(n, a, b, row2, col2, k2)),
    ensures
        borders_upto(m, n, region, bs, row2, col2, k2),
{
    assert forall|other: u8| #[trigger] near_cells(m, n, region, other, row2, col2, k2) == near_cells(m, n, region, other, row, col, k) by {
        assert forall|a: Coord| near_cells(m, n, region, other, row2, col2, k2).contains(a) <==> near_cells(m, n, region, other, row, col, k).contains(a) by {
            if near_cells(m, n, region, other, row2, col2, k2).contains(a) {
                let b = choose|b: Coord|
                    #[trigger] touching(m, n, region, a, b) && m[b.row as int][b.col as int] == other && scanned(n, a, b, row2, col2, k2);
            }
            if near_cells(m, n, region, other, row, col, k).contains(a) {
                let b = choose|b: Coord|
                    #[trigger] touching(m, n, region, a, b) && m[b.row as int][b.col as int] == other && scanned(n, a, b, row, col, k);
            }
        }
        assert(near_cells(m, n, region, other, row2, col2, k2) =~= near_cells(m, n, region, other, row, col, k));
    }
    assert forall|other: u8| #[trigger] far_cells(m, n, region, other, row2, col2, k2) == far_cells(m, n, region, other, row, col, k) by {
        assert forall|b: Coord| far_cells(m, n, region, other, row2, col2, k2).contains(b) <==> far_cells(m, n, region, other, row, col, k).contains(b) by {
            if far_cells(m, n, region, other, row2, col2, k2).contains(b) {
                let a = choose|a: Coord|
                    #[trigger] touching(m, n, region, a, b) && m[b.row as int][b.col as int] == other && scanned(n, a, b, row2, col2, k2);
            }
            if far_cells(m, n, region, other, row, col, k).contains(b) {
                let a = choose|a: Coord|
                    #[trigger] touching(m, n, region, a, b) && m[b.row as int][b.col as int] == other && scanned(n, a, b, row, col, k);
            }
        }
        assert(far_cells(m, n, region, other, row2, col2, k2) =~= far_cells(m, n, region, other, row, col, k));
    }
    assert forall|x: int|
        0 <= x < bs.len() implies (#[trigger] bs[x]).1.0@.to_set() == near_cells(m, n, region, bs[x].0.1, row2, col2, k2) by {
        assert(near_cells(m, n, region, bs[x].0.1, row2, col2, k2) == near_cells(m, n, region, bs[x].0.1, row, col, k));
    }
    assert forall|x: int|
        0 <= x < bs.len() implies (#[trigger] bs[x]).1.1@.to_set() == far_cells(m, n, region, bs[x].0.1, row2, col2, k2) by {
        assert(far_cells(m, n, region, bs[x].0.1, row2, col2, k2) == far_cells(m, n, region, bs[x].0.1, row, col, k));
    }
}

/// Once every neighbor of the cell `(row, col)` is scanned (or the cell is
/// outside the region), the record is exact up to the next cell.
proof fn lemma_scan_next_cell(m: Seq<Seq<u8>>, n: nat, region: u8, bs: Seq<Border>, row: int, col: int, k: int)
    requires
        borders_upto(m, n, region, bs, row, col, k),
        0 <= row,
        0 <= col,
        ({
            let cell = Coord { row: row as usize, col: col as usize };
            ||| !cell_in(m, n, cell, region as int)
            ||| neighbor_seq(n - 1, cell).take(k) == neighbor_seq(n - 1, cell)
        }),
    ensures
        borders_upto(m, n, region, bs, row, col + 1, 0),
{
    assert forall|a: Coord, b: Coord|
        #[trigger] touching(m, n, region, a, b) implies (scanned(n, a, b, row, col, k) <==> scanned(n, a, b, row, col + 1, 0)) by {
        if a.row as int == row && a.col as int == col {
            assert(a == Coord { row: row as usize, col: col as usize });
        }
    }
    lemma_same_scan(m, n, region, bs, row, col, k, row, col + 1, 0);
}

/// Once every cell of row `row` is scanned, the record is exact up to the next row.
proof fn lemma_scan_next_row(m: Seq<Seq<u8>>, n: nat, region: u8, bs: Seq<Border>, row: int)
    requires
        borders_upto(m, n, region, bs, row, n as int, 0),
    ensures
        borders_upto(m, n, region, bs, row + 1, 0, 0),
{
    assert forall|a: Coord, b: Coord|
        #[trigger] touching(m, n, region, a, b) implies (scanned(n, a, b, row, n as int, 0) <==> scanned(n, a, b, row + 1, 0, 0)) by {
    }
    lemma_same_scan(m, n, region, bs, row, n as int, 0, row + 1, 0, 0);
}

/// Once every row is scanned, every touching pair is recorded.
proof fn lemma_scan_done(m: Seq<Seq<u8>>, n: nat, region: u8, bs: Seq<Border>)
    requires
        borders_upto(m, n, region, bs, n as int, 0, 0),
    ensures
        forall|e: int, a: Coord|
            0 <= e < bs.len() ==> (#[trigger] bs[e].1.0@.contains(a) <==> exists|b: Coord|
                #[trigger] touching(m, n, region, a, b) && m[b.row as int][b.col as int] == bs[e].0.1),
        forall|e: int, b: Coord|
            0 <= e < bs.len() ==> (#[trigger] bs[e].1.1@.contains(b) <==> exists|a: Coord|
                #[trigger] touching(m, n, region, a, b) && m[b.row as int][b.col as int] == bs[e].0.1),
        forall|a: Coord, b: Coord|
            #[trigger] touching(m, n, region, a, b) ==> exists|e: int|
                #![trigger bs[e]]
                0 <= e < bs.len() && bs[e].0.1 == m[b.row as int][b.col as int],
{
    assert forall|a: Coord, b: Coord| #[trigger] touching(m, n, region, a, b) implies scanned(n, a, b, n as int, 0, 0) by {
    }
    assert forall|e: int, a: Coord|
        0 <= e < bs.len() implies (#[trigger] bs[e].1.0@.contains(a) <==> exists|b: Coord|
            #[trigger] touching(m, n, region, a, b) && m[b.row as int][b.col as int] == bs[e].0.1) by {
        assert(bs[e].1.0@.to_set() == near_cells(m, n, region, bs[e].0.1, n as int, 0, 0));
        assert(bs[e].1.0@.contains(a) <==> bs[e].1.0@.to_set().contains(a));
        if exists|b: Coord| #[trigger] touching(m, n, region, a, b) && m[b.row as int][b.col as int] == bs[e].0.1 {
            let b = choose|b: Coord| #[trigger] touching(m, n, region, a, b) && m[b.row as int][b.col as int] == bs[e].0.1;
            assert(scanned(n, a, b, n as int, 0, 0));
        }
    }
    assert forall|e: int, b: Coord|
        0 <= e < bs.len() implies (#[trigger] bs[e].1.1@.contains(b) <==> exists|a: Coord|
            #[trigger] touching(m, n, region, a, b) && m[b.row as int][b.col as int] == bs[e].0.1) by {
        assert(bs[e].1.1@.to_set() == far_cells(m, n, region, bs[e].0.1, n as int, 0, 0));
        assert(bs[e].1.1@.contains(b) <==> bs[e].1.1@.to_set().contains(b));
        if exists|a: Coord| #[trigger] touching(m, n, region, a, b) && m[b.row as int][b.col as int] == bs[e].0.1 {
            let a = choose|a: Coord| #[trigger] touching(m, n, region, a, b) && m[b.row as int][b.col as int] == bs[e].0.1;
            assert(scanned(n, a, b, n as int, 0, 0));
        }
    }
}

impl RegionMap {
    /// The region whose turn it is to grow.
    pub closed spec fn current(&self) -> u8 {
        self.current_region
    }

    /// The map is square and the current region is a region index.
    pub closed spec fn ready(&self) -> bool {
        &&& self.square()
        &&& self.current_region < self.n()
    }

    /// The regions bordering `region`: for each, the cells of `region` next to
    /// it and its cells next to `region`, each listed once.
    ///
    /// Every bordering region has exactly one entry; its first list holds
    /// exactly the cells of `region` that have a neighbor in it, and its
    /// second list exactly its cells that have a neighbor in `region`.
    fn get_region_borders(&self, region: u8) -> (r: Vec<Border>)
        requires
            self.square(),
        ensures
            forall|e: int| 0 <= e < r@.len() ==> border_ok(self@, self.n(), region, #[trigger] r@[e]),
            forall|e1: int, e2: int|
                #![trigger r@[e1], r@[e2]]
                0 <= e1 < r@.len() && 0 <= e2 < r@.len() && e1 != e2 ==> r@[e1].0.1 != r@[e2].0.1,
            forall|e: int, a: Coord|
                0 <= e < r@.len() ==> (#[trigger] r@[e].1.0@.contains(a) <==> exists|b: Coord|
                    #[trigger] touching(self@, self.n(), region, a, b) && self@[b.row as int][b.col as int] == r@[e].0.1),
            forall|e: int, b: Coord|
                0 <= e < r@.len() ==> (#[trigger] r@[e].1.1@.contains(b) <==> exists|a: Coord|
                    #[trigger] touching(self@, self.n(), region, a, b) && self@[b.row as int][b.col as int] == r@[e].0.1),
            forall|a: Coord, b: Coord|
                #[trigger] touching(self@, self.n(), region, a, b) ==> exists|e: int|
                    #![trigger r@[e]]
                    0 <= e < r@.len() && r@[e].0.1 == self@[b.row as int][b.col as int],
    {
        let max_cells = self.size.max_cells() as usize;
        let ghost n = self.n();
        let ghost m = self@;
        proof {
            self.size.lemma_region_shape();
        }
        let mut borders: Vec<Border> = Vec::new();
        let mut row: usize = 0;
        while row < max_cells
            invariant
                self.square(),
                m == self@,
                max_cells == n,
                n == self.n(),
                4 <= n <= 16,
                0 <= row <= n,
                borders_upto(m, n, region, borders@, row as int, 0, 0),
            decreases n - row,
        {
            let mut col: usize = 0;
            while col < max_cells
                invariant
                    self.square(),
                    m == self@,
                    max_cells == n,
                    n == self.n(),
                    4 <= n <= 16,
                    0 <= row < n,
                    0 <= col <= n,
                    borders_upto(m, n, region, borders@, row as int, col as int, 0),
                decreases n - col,
            {
                assert(self.regions@[row as int]@ == m[row as int]);
                let cell = Coord { row, col };
                if self.regions[row][col] == region {
                    let neighbors = Cardinal::get_neighbors(max_cells - 1, cell);
                    let mut k: usize = 0;
                    while k < neighbors.len()
                        invariant
                            self.square(),
                            m == self@,
                            max_cells == n,
                            n == self.n(),
                            4 <= n <= 16,
                            0 <= row < n,
                            0 <= col < n,
                            cell == (Coord { row, col }),
                            cell_in(m, n, cell, region as int),
                            neighbors@ == neighbor_seq(n - 1, cell),
                            0 <= k <= neighbors@.len(),
                            borders_upto(m, n, region, borders@, row as int, col as int, k as int),
                        decreases neighbors@.len() - k,
                    {
                        let coord = neighbors[k];
                        proof {
                            crate::cell::lemma_neighbor_in_grid(n - 1, cell, k as int);
                            assert(neighbor_seq(n - 1, cell).contains(coord));
                        }
                        assert(self.regions@[coord.row as int]@ == m[coord.row as int]);
                        let other = self.regions[coord.row][coord.col];
                        let ghost bs = borders@;
                        if other != region {
                            assert(touching(m, n, region, cell, coord));
                            match find_border(&borders, other) {
                                Some(e) => {
                                    let mut entry: Border = ((0, 0), (Vec::new(), Vec::new()));
                                    borders.set_and_swap(e, &mut entry);
                                    let ghost old_entry = entry;
                                    assert(old_entry == bs[e as int]);
                                    if !has_coord(&entry.1.0, cell) {
                                        entry.1.0.push(cell);
                                    }
                                    if !has_coord(&entry.1.1, coord) {
                                        entry.1.1.push(coord);
                                    }
                                    let ghost new_entry = entry;
                                    borders.set(e, entry);
                                    proof {
                                        assert(borders@ =~= bs.update(e as int, new_entry));
                                        lemma_border_grow(m, n, region, bs, e as int, new_entry, cell, coord, row as int, col as int, k as int);
                                    }
                                },
                                None => {
                                    let mut mine: Vec<Coord> = Vec::new();
                                    mine.push(cell);
                                    let mut theirs: Vec<Coord> = Vec::new();
                                    theirs.push(coord);
                                    borders.push(((region, other), (mine, theirs)));
                                    proof {
                                        lemma_border_new(m, n, region, bs, borders@, cell, coord, row as int, col as int, k as int);
                                    }
                                },
                            }
                        } else {
                            proof {
                                lemma_scan_skip(m, n, region, bs, cell, coord, row as int, col as int, k as int);
                            }
                        }
                        k += 1;
                    }
                    proof {
                        assert(neighbor_seq(n - 1, cell).take(neighbors@.len() as int) == neighbor_seq(n - 1, cell));
                        lemma_scan_next_cell(m, n, region, borders@, row as int, col as int, neighbors@.len() as int);
                    }
                } else {
                    proof {
                        lemma_scan_next_cell(m, n, region, borders@, row as int, col as int, 0);
                    }
                }
                col += 1;
            }
            proof {
                lemma_scan_next_row(m, n, region, borders@, row as int);
            }
            row += 1;
        }
        proof {
            lemma_scan_done(m, n, region, borders@);
        }
        borders
    }
}

/// `m` with the region of `c` set to `v`.
pub open spec fn set_region(m: Seq<Seq<u8>>, c: Coord, v: u8) -> Seq<Seq<u8>> {
    m.update(c.row as int, m[c.row as int].update(c.col as int, v))
}

impl RegionMap {
    /// Set the region of the in-grid cell `c` to `v`.
    fn set_cell_region(&mut self, c: Coord, v: u8)
        requires
            old(self).square(),
            in_grid(old(self).n(), c),
        ensures
            final(self)@ == set_region(old(self)@, c, v),
            final(self).square(),
            final(self).n() == old(self).n(),
            final(self).ready() == old(self).ready(),
            final(self).current() == old(self).current(),
    {
        let mut row: Vec<u8> = Vec::new();
        self.regions.set_and_swap(c.row, &mut row);
        assert(row@ == old(self)@[c.row as int]);
        row.set(c.col, v);
        self.regions.set(c.row, row);
        proof {
            assert(self@ =~= set_region(old(self)@, c, v)) by {
                assert forall|i: int| 0 <= i < self@.len() implies #[trigger] self@[i] == set_region(old(self)@, c, v)[i] by {
                    if i != c.row {
                        assert(self.regions@[i] == old(self).regions@[i]);
                    }
                }
            }
        }
    }

    /// Swap the regions of `cell1` and `cell2`: `cell1` joins the second
    /// region and `cell2` the first. The swap is kept when both regions stay
    /// contiguous and undone otherwise; nothing happens when the two regions
    /// are the same or a cell is out of bounds.
    pub fn try_swap_cells(&mut self, regions: &(u8, u8), cell1: Coord, cell2: Coord) -> (r: bool)
        requires
            old(self).square(),
            cell1 == cell2 && regions.0 != regions.1 && in_grid(old(self).n(), cell1) && region_connected(
                old(self).n(),
                map_region(set_region(old(self)@, cell1, regions.0), regions.0 as int),
            ) ==> exists|d: Coord| d != cell1 && #[trigger] cell_in(old(self)@, old(self).n(), d, regions.1 as int),
        ensures
            final(self).square(),
            final(self).n() == old(self).n(),
            final(self).ready() == old(self).ready(),
            final(self).current() == old(self).current(),
            ({
                let swapped = set_region(set_region(old(self)@, cell1, regions.1), cell2, regions.0);
                let n = old(self).n();
                &&& r == (regions.0 != regions.1 && in_grid(n, cell1) && in_grid(n, cell2) && region_connected(
                    n,
                    map_region(swapped, regions.0 as int),
                ) && region_connected(n, map_region(swapped, regions.1 as int)))
                &&& r ==> final(self)@ == swapped
                &&& !r && regions.0 != regions.1 && in_grid(n, cell1) && in_grid(n, cell2) ==> final(self)@
                    == set_region(set_region(swapped, cell1, regions.0), cell2, regions.1)
                &&& !(regions.0 != regions.1 && in_grid(n, cell1) && in_grid(n, cell2)) ==> final(self)@ == old(self)@
            }),
    {
        let max_cells = self.size.max_cells() as usize;
        let ghost n = self.n();
        let (region1, region2) = *regions;
        if region1 == region2 {
            return false;
        }
        if cell1.row < max_cells && cell2.row < max_cells && cell1.col < max_cells && cell2.col < max_cells {
            let ghost m0 = self@;
            self.set_cell_region(cell1, region2);
            self.set_cell_region(cell2, region1);
            let ghost sw = self@;
            proof {
                assert(n <= 16);
                lemma_grid_part(map_region(sw, region1 as int), n, n);
                lemma_grid_part(map_region(sw, region2 as int), n, n);
                assert(sw[cell2.row as int][cell2.col as int] == region1);
                assert(grid_part(map_region(sw, region1 as int), n, n).contains(cell2));
                if cell1 != cell2 {
                    assert(sw[cell1.row as int][cell1.col as int] == region2) by {
                        if cell1.row == cell2.row {
                            assert(cell1.col != cell2.col);
                        }
                    }
                    assert(grid_part(map_region(sw, region2 as int), n, n).contains(cell1));
                } else {
                    assert(sw =~= set_region(m0, cell1, region1)) by {
                        assert forall|i: int| 0 <= i < sw.len() implies sw[i] =~= set_region(m0, cell1, region1)[i] by {
                        }
                    }
                }
            }
            let connected1 = self.check_contiguity(region1);
            if connected1 {
                proof {
                    if cell1 == cell2 {
                        let d = choose|d: Coord| d != cell1 && #[trigger] cell_in(m0, n, d, region2 as int);
                        assert(sw[d.row as int][d.col as int] == region2) by {
                            if d.row == cell1.row {
                                assert(d.col != cell1.col);
                            }
                        }
                        assert(grid_part(map_region(sw, region2 as int), n, n).contains(d));
                    }
                }
            }
            if !connected1 || !self.check_contiguity(region2) {
                self.set_cell_region(cell1, region1);
                self.set_cell_region(cell2, region2);
                return false;
            }
            return true;
        }
        false
    }
}

/// Swapping back two cells restores the map.
proof fn lemma_unswap(m: Seq<Seq<u8>>, n: nat, a: Coord, b: Coord, r0: u8, r1: u8)
    requires
        m.len() == n,
        forall|i: int| 0 <= i < n ==> #[trigger] m[i].len() == n,
        cell_in(m, n, a, r0 as int),
        cell_in(m, n, b, r1 as int),
        a != b,
    ensures
        set_region(set_region(set_region(set_region(m, a, r1), b, r0), a, r0), b, r1) == m,
{
    let t = set_region(set_region(set_region(set_region(m, a, r1), b, r0), a, r0), b, r1);
    assert forall|i: int| 0 <= i < n implies #[trigger] t[i] == m[i] by {
        assert(t[i] =~= m[i]);
    }
    assert(t =~= m);
}

/// Giving `a` the region `regions.1` and `b` the region `regions.0` keeps
/// both regions contiguous.
pub open spec fn swap_keeps(m: Seq<Seq<u8>>, n: nat, regions: (u8, u8), a: Coord, b: Coord) -> bool {
    let swapped = set_region(set_region(m, a, regions.1), b, regions.0);
    region_connected(n, map_region(swapped, regions.0 as int)) && region_connected(
        n,
        map_region(swapped, regions.1 as int),
    )
}

/// The pair `(xs[i], ys[j])` is the first, in the order of `i` then `j`,
/// whose swap keeps both regions contiguous.
pub open spec fn first_swap(
    m: Seq<Seq<u8>>,
    n: nat,
    regions: (u8, u8),
    xs: Seq<Coord>,
    ys: Seq<Coord>,
    i: int,
    j: int,
) -> bool {
    &&& 0 <= i < xs.len()
    &&& 0 <= j < ys.len()
    &&& swap_keeps(m, n, regions, xs[i], ys[j])
    &&& forall|i2: int, j2: int|
        0 <= i2 < xs.len() && 0 <= j2 < ys.len() && (i2 < i || (i2 == i && j2 < j)) ==> !#[trigger] swap_keeps(
            m,
            n,
            regions,
            xs[i2],
            ys[j2],
        )
}

/// `a` is a cell of `region` next to a cell of region `other`.
pub open spec fn next_to(m: Seq<Seq<u8>>, n: nat, region: u8, other: u8, a: Coord) -> bool {
    exists|b: Coord| #[trigger] touching(m, n, region, a, b) && m[b.row as int][b.col as int] == other
}

/// `b` is a cell of region `other` next to a cell of `region`.
pub open spec fn reached_from(m: Seq<Seq<u8>>, n: nat, region: u8, other: u8, b: Coord) -> bool {
    exists|a: Coord| #[trigger] touching(m, n, region, a, b) && m[b.row as int][b.col as int] == other
}

/// Region `region` can grow toward the bordering region `other` by giving
/// its cell `a`, next to `other`, to `other` and taking `b`, a cell of
/// `other` next to `region`, with both regions staying contiguous.
pub open spec fn grow_pair(m: Seq<Seq<u8>>, n: nat, region: u8, other: u8, a: Coord, b: Coord) -> bool {
    &&& other != region
    &&& next_to(m, n, region, other, a)
    &&& reached_from(m, n, region, other, b)
    &&& swap_keeps(m, n, (region, other), a, b)
}

/// Some swap lets `region` grow.
pub open spec fn can_grow(m: Seq<Seq<u8>>, n: nat, region: u8) -> bool {
    exists|other: u8, a: Coord, b: Coord| #[trigger] grow_pair(m, n, region, other, a, b)
}

/// One turn of `region`: `m2` is `m` with one growing swap made when some
/// swap lets `region` grow, and `m` itself otherwise.
pub open spec fn grow_turn(m: Seq<Seq<u8>>, n: nat, region: u8, m2: Seq<Seq<u8>>) -> bool {
    if can_grow(m, n, region) {
        exists|other: u8, a: Coord, b: Coord|
            #[trigger] grow_pair(m, n, region, other, a, b) && m2 == set_region(set_region(m, a, other), b, region)
    } else {
        m2 == m
    }
}

/// The turns of the regions from `c0` on, one after the other, lead from
/// `maps[0]` to each next map.
pub open spec fn grow_run(maps: Seq<Seq<Seq<u8>>>, n: nat, c0: int) -> bool {
    forall|k: int| 0 <= k < maps.len() - 1 ==> #[trigger] grow_turn(maps[k], n, ((c0 + k) % (n as int)) as u8, maps[k + 1])
}

/// No pair of the entry's cells swaps with both regions staying contiguous.
pub open spec fn no_keeping_pair(m: Seq<Seq<u8>>, n: nat, entry: Border) -> bool {
    forall|i: int, j: int|
        0 <= i < entry.1.0@.len() && 0 <= j < entry.1.1@.len() ==> !#[trigger] swap_keeps(
            m,
            n,
            entry.0,
            entry.1.0@[i],
            entry.1.1@[j],
        )
}

impl RegionMap {
    /// Try the pairs of bordering cells in turn (a cell of the first region,
    /// then a cell of the second) until a swap keeps both regions contiguous.
    ///
    /// Returns `true` exactly when some pair keeps both regions contiguous;
    /// the map then has the first such pair swapped, and is unchanged
    /// otherwise.
    fn swap_cells(&mut self, regions: &(u8, u8), adjacent: &(Vec<Coord>, Vec<Coord>)) -> (r: bool)
        requires
            old(self).square(),
            regions.0 != regions.1,
            forall|k: int| 0 <= k < adjacent.0@.len() ==> cell_in(old(self)@, old(self).n(), #[trigger] adjacent.0@[k], regions.0 as int),
            forall|k: int| 0 <= k < adjacent.1@.len() ==> cell_in(old(self)@, old(self).n(), #[trigger] adjacent.1@[k], regions.1 as int),
        ensures
            final(self).square(),
            final(self).n() == old(self).n(),
            final(self).ready() == old(self).ready(),
            final(self).current() == old(self).current(),
            r == exists|i: int, j: int|
                0 <= i < adjacent.0@.len() && 0 <= j < adjacent.1@.len() && #[trigger] swap_keeps(
                    old(self)@,
                    old(self).n(),
                    *regions,
                    adjacent.0@[i],
                    adjacent.1@[j],
                ),
            r ==> exists|i: int, j: int|
                #[trigger] first_swap(old(self)@, old(self).n(), *regions, adjacent.0@, adjacent.1@, i, j)
                    && final(self)@ == set_region(
                    set_region(old(self)@, adjacent.0@[i], regions.1),
                    adjacent.1@[j],
                    regions.0,
                ),
            !r ==> final(self)@ == old(self)@,
    {
        let ghost m = self@;
        let ghost n = self.n();
        let mut i: usize = 0;
        while i < adjacent.0.len()
            invariant
                self@ == m,
                n == self.n(),
                n == old(self).n(),
                self.square(),
                self.ready() == old(self).ready(),
                self.current() == old(self).current(),
                m == old(self)@,
                regions.0 != regions.1,
                forall|k: int| 0 <= k < adjacent.0@.len() ==> cell_in(m, n, #[trigger] adjacent.0@[k], regions.0 as int),
                forall|k: int| 0 <= k < adjacent.1@.len() ==> cell_in(m, n, #[trigger] adjacent.1@[k], regions.1 as int),
                0 <= i <= adjacent.0@.len(),
                forall|i2: int, j2: int|
                    0 <= i2 < i && 0 <= j2 < adjacent.1@.len() ==> !#[trigger] swap_keeps(
                        m,
                        n,
                        *regions,
                        adjacent.0@[i2],
                        adjacent.1@[j2],
                    ),
            decreases adjacent.0@.len() - i,
        {
            let cell1 = adjacent.0[i];
            assert(cell_in(m, n, cell1, regions.0 as int));
            let mut j: usize = 0;
            while j < adjacent.1.len()
                invariant
                    self@ == m,
                    n == self.n(),
                    n == old(self).n(),
                    self.square(),
                    self.ready() == old(self).ready(),
                    self.current() == old(self).current(),
                    m == old(self)@,
                    regions.0 != regions.1,
                    cell_in(m, n, cell1, regions.0 as int),
                    cell1 == adjacent.0@[i as int],
                    0 <= i < adjacent.0@.len(),
                    forall|k: int| 0 <= k < adjacent.1@.len() ==> cell_in(m, n, #[trigger] adjacent.1@[k], regions.1 as int),
                    0 <= j <= adjacent.1@.len(),
                    forall|i2: int, j2: int|
                        0 <= i2 < adjacent.0@.len() && 0 <= j2 < adjacent.1@.len() && (i2 < i || (i2 == i && j2
                            < j)) ==> !#[trigger] swap_keeps(m, n, *regions, adjacent.0@[i2], adjacent.1@[j2]),
                decreases adjacent.1@.len() - j,
            {
                let cell2 = adjacent.1[j];
                assert(cell_in(m, n, cell2, regions.1 as int));
                if self.try_swap_cells(regions, cell1, cell2) {
                    proof {
                        assert(swap_keeps(m, n, *regions, adjacent.0@[i as int], adjacent.1@[j as int]));
                        assert(first_swap(m, n, *regions, adjacent.0@, adjacent.1@, i as int, j as int));
                    }
                    return true;
                }
                proof {
                    lemma_unswap(m, n, cell1, cell2, regions.0, regions.1);
                    assert(!swap_keeps(m, n, *regions, adjacent.0@[i as int], adjacent.1@[j as int]));
                }
                j += 1;
            }
            i += 1;
        }
        false
    }

    /// Grow irregular regions: at each iteration, the current region tries
    /// to swap a border cell with each bordering region (in random order)
    /// until one swap keeps both regions contiguous; then the next region
    /// becomes current.
    ///
    /// Each iteration makes the next region current, so that the regions
    /// take turns in order.
    pub fn generate(&mut self, iterations: u32) -> (r: Result<(), IrregularMapError>)
        requires
            old(self).ready(),
        ensures
            final(self).ready(),
            final(self).n() == old(self).n(),
            valid_map(old(self)@) ==> valid_map(final(self)@),
            final(self).current() == (old(self).current() + iterations) % (old(self).n() as int),
            exists|maps: Seq<Seq<Seq<u8>>>|
                #![trigger grow_run(maps, old(self).n(), old(self).current() as int)]
                maps.len() == iterations + 1 && maps[0] == old(self)@ && maps[iterations as int] == final(self)@
                    && grow_run(maps, old(self).n(), old(self).current() as int),
            r is Ok,
    {
        let mut it: u32 = 0;
        let ghost mut maps: Seq<Seq<Seq<u8>>> = seq![self@];
        proof {
            vstd::arithmetic::div_mod::lemma_small_mod(self.current() as nat, self.n());
        }
        while it < iterations
            invariant
                self.ready(),
                self.n() == old(self).n(),
                valid_map(old(self)@) ==> valid_map(self@),
                0 <= it <= iterations,
                self.current() == (old(self).current() + it) % (old(self).n() as int),
                old(self).current() < old(self).n(),
                maps.len() == it + 1,
                maps[0] == old(self)@,
                maps[it as int] == self@,
                grow_run(maps, old(self).n(), old(self).current() as int),
            decreases iterations - it,
        {
            let neighbors = self.get_region_borders(self.current_region);
            let mut keys: Vec<usize> = Vec::new();
            let mut k: usize = 0;
            while k < neighbors.len()
                invariant
                    0 <= k <= neighbors@.len(),
                    keys@ == Seq::new(k as nat, |q: int| q as usize),
                decreases neighbors@.len() - k,
            {
                keys.push(k);
                k += 1;
                assert(keys@ =~= Seq::new(k as nat, |q: int| q as usize));
            }
            let ghost before = keys@;
            shuffle(&mut keys);
            proof {
                crate::generate::lemma_same_multiset(keys@, before);
            }
            let ghost m = self@;
            let ghost cur = self.current_region;
            let ghost n = self.n();
            let ghost mut found = false;
            proof {
                assert forall|q: int| 0 <= q < keys@.len() implies #[trigger] keys@[q] < neighbors@.len() by {
                    assert(keys@.contains(keys@[q]));
                    assert(before.contains(keys@[q]));
                }
            }
            let mut t: usize = 0;
            while t < keys.len()
                invariant_except_break
                    self@ == m,
                    !found,
                invariant
                    !found ==> self@ == m,
                    found ==> grow_turn(m, n, cur, self@),
                    forall|q: int| 0 <= q < t ==> no_keeping_pair(m, n, #[trigger] neighbors@[keys@[q] as int]),
                    forall|q: int| 0 <= q < keys@.len() ==> #[trigger] keys@[q] < neighbors@.len(),
                    forall|e: int, a: Coord|
                        0 <= e < neighbors@.len() ==> (#[trigger] neighbors@[e].1.0@.contains(a) <==> next_to(
                            m,
                            n,
                            cur,
                            neighbors@[e].0.1,
                            a,
                        )),
                    forall|e: int, b: Coord|
                        0 <= e < neighbors@.len() ==> (#[trigger] neighbors@[e].1.1@.contains(b) <==> reached_from(
                            m,
                            n,
                            cur,
                            neighbors@[e].0.1,
                            b,
                        )),
                    forall|o: u8, a: Coord|
                        #[trigger] next_to(m, n, cur, o, a) ==> exists|e: int|
                            #![trigger neighbors@[e]]
                            0 <= e < neighbors@.len() && neighbors@[e].0.1 == o,
                    self.current() == cur,
                    self.ready(),
                    self.n() == old(self).n(),
                    valid_map(old(self)@) ==> valid_map(m),
                    valid_map(old(self)@) ==> valid_map(self@),
                    0 <= t <= keys@.len(),
                    forall|q: usize| #[trigger] keys@.contains(q) <==> before.contains(q),
                    before == Seq::new(neighbors@.len(), |q: int| q as usize),
                    forall|e: int| 0 <= e < neighbors@.len() ==> {
                        let entry = #[trigger] neighbors@[e];
                        &&& entry.0.0 == cur
                        &&& entry.0.1 != cur
                        &&& forall|k: int| 0 <= k < entry.1.0@.len() ==> cell_in(m, n, #[trigger] entry.1.0@[k], entry.0.0 as int)
                        &&& forall|k: int| 0 <= k < entry.1.1@.len() ==> cell_in(m, n, #[trigger] entry.1.1@[k], entry.0.1 as int)
                    },
                    n == self.n(),
                ensures
                    !found ==> t >= keys@.len(),
                decreases keys@.len() - t,
            {
                let idx = keys[t];
                assert(keys@.contains(idx));
                assert(before.contains(idx));
                proof {
                    let j = choose|j: int| 0 <= j < before.len() && before[j] == idx;
                }
                let (regions, adjacent) = &neighbors[idx];
                assert(neighbors@[idx as int] == (*regions, *adjacent));
                if self.swap_cells(regions, adjacent) {
                    proof {
                        let (ka, kb) = choose|ka: int, kb: int|
                            #[trigger] first_swap(m, n, *regions, adjacent.0@, adjacent.1@, ka, kb) && self@
                                == set_region(set_region(m, adjacent.0@[ka], regions.1), adjacent.1@[kb], regions.0);
                        let a = adjacent.0@[ka];
                        let b = adjacent.1@[kb];
                        assert(cell_in(m, n, a, regions.0 as int));
                        assert(cell_in(m, n, b, regions.1 as int));
                        if valid_map(old(self)@) {
                            lemma_swap_valid(m, a, b, regions.0, regions.1);
                        }
                        assert(adjacent.0@.contains(a));
                        assert(adjacent.1@.contains(b));
                        assert(next_to(m, n, cur, regions.1, a));
                        assert(reached_from(m, n, cur, regions.1, b));
                        assert(grow_pair(m, n, cur, regions.1, a, b));
                        assert(can_grow(m, n, cur));
                        found = true;
                    }
                    break;
                }
                proof {
                    assert(no_keeping_pair(m, n, neighbors@[keys@[t as int] as int]));
                }
                t += 1;
            }
            proof {
                if !found {
                    assert forall|o: u8, a: Coord, b: Coord| !#[trigger] grow_pair(m, n, cur, o, a, b) by {
                        if grow_pair(m, n, cur, o, a, b) {
                            let e = choose|e: int| #![trigger neighbors@[e]] 0 <= e < neighbors@.len() && neighbors@[e].0.1 == o;
                            assert(before.contains(e as usize)) by {
                                assert(before[e] == e as usize);
                            }
                            assert(keys@.contains(e as usize));
                            let q = choose|q: int| 0 <= q < keys@.len() && keys@[q] == e as usize;
                            assert(no_keeping_pair(m, n, neighbors@[keys@[q] as int]));
                            let entry = neighbors@[e];
                            assert(entry.1.0@.contains(a));
                            assert(entry.1.1@.contains(b));
                            let i = choose|i: int| 0 <= i < entry.1.0@.len() && entry.1.0@[i] == a;
                            let j = choose|j: int| 0 <= j < entry.1.1@.len() && entry.1.1@[j] == b;
                            assert(entry.0 == (cur, o));
                            assert(!swap_keeps(m, n, entry.0, entry.1.0@[i], entry.1.1@[j]));
                        }
                    }
                    assert(!can_grow(m, n, cur));
                }
                assert(grow_turn(m, n, cur, self@));
            }
            self.current_region = if self.current_region == self.size.max_cells() - 1 {
                0
            } else {
                self.current_region + 1
            };
            proof {
                let c0 = old(self).current() as int;
                let nn = n as int;
                assert(cur == (c0 + it) % nn);
                let prev = maps;
                maps = maps.push(self@);
                assert forall|k: int| 0 <= k < maps.len() - 1 implies #[trigger] grow_turn(
                    maps[k],
                    old(self).n(),
                    ((c0 + k) % (old(self).n() as int)) as u8,
                    maps[k + 1],
                ) by {
                    if k < it {
                        assert(grow_turn(prev[k], old(self).n(), ((c0 + k) % (old(self).n() as int)) as u8, prev[k + 1]));
                    }
                }
                assert(0 <= c0 < nn);
                assert((c0 + it + 1) % nn == if cur == nn - 1 { 0 } else { cur + 1 }) by (nonlinear_arith)
                    requires
                        cur == (c0 + it) % nn,
                        nn > 0,
                        0 <= c0 + it,
                        0 <= cur < nn,
                ;
            }
            it += 1;
        }
        Ok(())
    }
}

/// The uppercase hexadecimal digits of `x`, without leading zeros.
pub open spec fn hex_digits(x: nat) -> Seq<char>
    decreases x,
{
    if x < 16 {
        seq![hex_char(x)]
    } else {
        hex_digits(x / 16).push(hex_char(x % 16))
    }
}

/// The first `k` entries of `row` in hexadecimal, separated by spaces; the
/// last entry of the row is followed by a line break.
pub open spec fn map_row_text(row: Seq<u8>, k: nat) -> Seq<char>
    decreases k,
{
    if k == 0 {
        Seq::empty()
    } else {
        map_row_text(row, (k - 1) as nat) + hex_digits(row[k - 1] as nat) + if k == row.len() {
            seq!['\n']
        } else {
            seq![' ']
        }
    }
}

/// The text of the first `k` rows of `m`.
pub open spec fn map_text(m: Seq<Seq<u8>>, k: nat) -> Seq<char>
    decreases k,
{
    if k == 0 {
        Seq::empty()
    } else {
        map_text(m, (k - 1) as nat) + map_row_text(m[k - 1], m[k - 1].len())
    }
}

/// Append the uppercase hexadecimal digits of `x` to `out`.
fn push_hex(out: &mut String, x: u8)
    ensures
        final(out)@ == old(out)@ + hex_digits(x as nat),
    decreases x,
{
    if x >= 16 {
        push_hex(out, x / 16);
    }
    push_char(out, from_hex(x % 16));
    proof {
        if x >= 16 {
            assert(old(out)@ + hex_digits(x as nat) =~= old(out)@ + hex_digits((x / 16) as nat) + seq![hex_char((x % 16) as nat)]);
        }
    }
}

impl RegionMap {
    /// The map as text: each row on a line, its region indexes in
    /// uppercase hexadecimal separated by spaces.
    pub fn display(&self) -> (r: String)
        ensures
            r@ == map_text(self@, self@.len()),
    {
        let mut out = String::new();
        let ghost m = self@;
        let mut i: usize = 0;
        while i < self.regions.len()
            invariant
                m == self@,
                m.len() == self.regions@.len(),
                0 <= i <= m.len(),
                out@ == map_text(m, i as nat),
            decreases m.len() - i,
        {
            let row = &self.regions[i];
            assert(row@ == m[i as int]);
            let ghost before = out@;
            let mut j: usize = 0;
            while j < row.len()
                invariant
                    0 <= j <= row@.len(),
                    out@ == before + map_row_text(row@, j as nat),
                decreases row@.len() - j,
            {
                push_hex(&mut out, row[j]);
                if j == row.len() - 1 {
                    push_char(&mut out, '\n');
                } else {
                    push_char(&mut out, ' ');
                }
                proof {
                    assert(out@ =~= before + map_row_text(row@, (j + 1) as nat));
                }
                j += 1;
            }
            i += 1;
            proof {
                assert(out@ =~= map_text(m, i as nat));
            }
        }
        out
    }
}

impl IrregularMap {
    /// Generate a random valid IrregularMap for the given board `size`.
    ///
    /// This starts with a regular region map and performs a series of random
    /// swaps to create an irregular map. For each iteration, a swap is done on
    /// each region of the board. The number of iterations is the
    /// [`BoardSize::max_cells()`] squared, but it is also capped at 100 to
    /// prevent excessive computation time on larger boards (anything bigger than 9x9).
    ///
    /// The map is reached from the regular layout by that many turns of
    /// [`RegionMap::generate`], starting with region 0.
    pub fn generate(size: &BoardSize) -> (r: Result<IrregularMap, IrregularMapError>)
        ensures
            r is Ok,
            r matches Ok(map) ==> map@.len() == size.cells(),
            r matches Ok(map) ==> exists|maps: Seq<Seq<Seq<u8>>>|
                #![trigger grow_run(maps, size.cells(), 0)]
                maps.len() == (if size.cells() * size.cells() < 100 { size.cells() * size.cells() } else { 100 }) + 1
                    && maps[0] == regular_map(*size) && maps[maps.len() - 1] == map@ && grow_run(maps, size.cells(), 0),
    {
        let mut temp_board = RegionMap::new(size);
        proof {
            lemma_regular_valid(*size);
        }
        let max_cells = size.max_cells() as u32;
        assert(max_cells <= 16);
        assert(max_cells * max_cells <= 256) by (nonlinear_arith)
            requires
                max_cells <= 16,
        ;
        let squared = max_cells * max_cells;
        let iterations = if squared < 100 { squared } else { 100 };
        match temp_board.generate(iterations) {
            Ok(()) => {},
            Err(e) => {
                return Err(e);
            },
        }
        proof {
            lemma_valid_no_error(temp_board@, temp_board.n());
        }
        match temp_board.is_valid() {
            Ok(()) => {
                proof {
                    size.lemma_region_shape();
                    lemma_no_error_valid(temp_board@, temp_board.n());
                }
                Ok(IrregularMap::from_valid(temp_board.regions))
            },
            Err(e) => Err(e),
        }
    }
}

} // verus!
