//! Every seeded regular board can be completed: the shifted pattern, with
//! its values renamed after the seeded first region, solves it.
use crate::board::{full_notes, Board};
use crate::cell::{CellView, Coord};
use crate::generate::{first_region, is_permutation, lemma_permutation, seeded_at, seen_in_lines};
use crate::region::{in_grid, BoardKind};
use crate::size::BoardSize;
use crate::solution::{allows, val};
use vstd::arithmetic::div_mod::{lemma_fundamental_div_mod, lemma_mod_bound};
use vstd::prelude::*;

verus! {

/// The pattern value of the cell `c` of a regular board of size `size`: each
/// row is the row above shifted by a region's width, and each band of regions
/// is shifted by one more.
pub open spec fn pattern(size: BoardSize, c: Coord) -> int {
    let w = size.region_width() as int;
    let h = size.region_height() as int;
    (w * (c.row as int % h) + c.row as int / h + c.col as int) % (size.cells() as int)
}

/// The cell of the first region of a regular board whose pattern value is `t`.
pub open spec fn pattern_cell(size: BoardSize, t: int) -> Coord {
    Coord { row: (t / size.region_width() as int) as usize, col: (t % size.region_width() as int) as usize }
}

/// The completed grid that gives every cell the value that the seeding `p`
/// wrote, in the first region of `b`, on the cell of the same pattern value.
pub open spec fn pattern_grid(b: Board, p: Seq<u8>) -> Seq<Seq<u8>> {
    Seq::new(
        b.n(),
        |r: int|
            Seq::new(
                b.n(),
                |c: int|
                    p[first_region(b).index_of(
                        pattern_cell(b.size, pattern(b.size, Coord { row: r as usize, col: c as usize })),
                    )],
            ),
    )
}

/// Two values below `n` that agree modulo `n` once shifted by `k` are equal.
proof fn lemma_mod_shift(x: int, y: int, k: int, n: int)
    requires
        0 <= x < n,
        0 <= y < n,
        (x + k) % n == (y + k) % n,
    ensures
        x == y,
{
    lemma_fundamental_div_mod(x + k, n);
    lemma_fundamental_div_mod(y + k, n);
    let d = (x + k) / n - (y + k) / n;
    assert(x - y == n * d) by (nonlinear_arith)
        requires
            x + k == n * ((x + k) / n) + (x + k) % n,
            y + k == n * ((y + k) / n) + (y + k) % n,
            (x + k) % n == (y + k) % n,
            d == (x + k) / n - (y + k) / n,
    ;
    assert(d == 0) by (nonlinear_arith)
        requires
            x - y == n * d,
            -n < x - y < n,
            n > 0,
    ;
}

/// The digits of a number in base `w` are unique.
proof fn lemma_digits(w: int, q1: int, r1: int, q2: int, r2: int)
    requires
        0 <= r1 < w,
        0 <= r2 < w,
        w * q1 + r1 == w * q2 + r2,
    ensures
        q1 == q2,
        r1 == r2,
{
    assert(q1 == q2) by (nonlinear_arith)
        requires
            0 <= r1 < w,
            0 <= r2 < w,
            w * q1 + r1 == w * q2 + r2,
    ;
}

/// A row index splits into its band and its row in the band.
proof fn lemma_split(x: int, h: int, w: int)
    requires
        0 <= x < w * h,
        h > 0,
        w > 0,
    ensures
        x == h * (x / h) + x % h,
        0 <= x % h < h,
        0 <= x / h < w,
        0 <= w * (x % h) + x / h < w * h,
{
    lemma_fundamental_div_mod(x, h);
    lemma_mod_bound(x, h);
    assert(0 <= x / h < w) by (nonlinear_arith)
        requires
            x == h * (x / h) + x % h,
            0 <= x % h < h,
            0 <= x < w * h,
            h > 0,
    ;
    assert(0 <= w * (x % h) + x / h < w * h) by (nonlinear_arith)
        requires
            0 <= x % h < h,
            0 <= x / h < w,
            w > 0,
    ;
}

/// Distinct cells that share a row, a column or a regular region have
/// distinct pattern values.
pub proof fn lemma_pattern_distinct(size: BoardSize, a: Coord, b: Coord)
    requires
        in_grid(size.cells(), a),
        in_grid(size.cells(), b),
        a != b,
        a.row == b.row || a.col == b.col || BoardKind::Regular.region_at(size, a) == BoardKind::Regular.region_at(
            size,
            b,
        ),
    ensures
        pattern(size, a) != pattern(size, b),
{
    size.lemma_region_shape();
    let w = size.region_width() as int;
    let h = size.region_height() as int;
    let n = size.cells() as int;
    let ra = a.row as int;
    let rb = b.row as int;
    let ca = a.col as int;
    let cb = b.col as int;
    lemma_split(ra, h, w);
    lemma_split(rb, h, w);
    let xa = w * (ra % h) + ra / h;
    let xb = w * (rb % h) + rb / h;
    if ra == rb {
        assert(pattern(size, a) == (ca + xa) % n);
        assert(pattern(size, b) == (cb + xa) % n);
        if pattern(size, a) == pattern(size, b) {
            lemma_mod_shift(ca, cb, xa, n);
        }
    } else if ca == cb {
        assert(pattern(size, a) == (xa + ca) % n);
        assert(pattern(size, b) == (xb + ca) % n);
        if pattern(size, a) == pattern(size, b) {
            lemma_mod_shift(xa, xb, ca, n);
            lemma_digits(w, ra % h, ra / h, rb % h, rb / h);
        }
    } else {
        lemma_split(ca, w, h);
        lemma_split(cb, w, h);
        lemma_digits(h, ra / h, ca / w, rb / h, cb / w);
        let k = ra / h + w * (ca / w);
        let ya = w * (ra % h) + ca % w;
        let yb = w * (rb % h) + cb % w;
        assert(0 <= ya < n && 0 <= yb < n) by (nonlinear_arith)
            requires
                0 <= ra % h < h,
                0 <= rb % h < h,
                0 <= ca % w < w,
                0 <= cb % w < w,
                n == w * h,
                ya == w * (ra % h) + ca % w,
                yb == w * (rb % h) + cb % w,
        ;
        assert(xa + ca == ya + k) by (nonlinear_arith)
            requires
                ca == w * (ca / w) + ca % w,
                xa == w * (ra % h) + ra / h,
                ya == w * (ra % h) + ca % w,
                k == ra / h + w * (ca / w),
        ;
        assert(xb + cb == yb + k) by (nonlinear_arith)
            requires
                cb == w * (cb / w) + cb % w,
                xb == w * (rb % h) + rb / h,
                yb == w * (rb % h) + cb % w,
                k == rb / h + w * (cb / w),
                ra / h == rb / h,
                ca / w == cb / w,
        ;
        if pattern(size, a) == pattern(size, b) {
            lemma_mod_shift(ya, yb, k, n);
            lemma_digits(w, ra % h, ca % w, rb % h, cb % w);
        }
    }
}

/// The pattern cell of a value below the row length lies in the first region
/// of a regular board and has that pattern value.
pub proof fn lemma_pattern_cell(size: BoardSize, t: int)
    requires
        0 <= t < size.cells(),
    ensures
        in_grid(size.cells(), pattern_cell(size, t)),
        BoardKind::Regular.region_at(size, pattern_cell(size, t)) == 0,
        pattern(size, pattern_cell(size, t)) == t,
{
    size.lemma_region_shape();
    let w = size.region_width() as int;
    let h = size.region_height() as int;
    let n = size.cells() as int;
    lemma_split(t, w, h);
    let row = t / w;
    let col = t % w;
    assert(row < h);
    assert(row / h == 0 && row % h == row) by (nonlinear_arith)
        requires
            0 <= row < h,
    ;
    assert(col / w == 0) by (nonlinear_arith)
        requires
            0 <= col < w,
    ;
    assert(w * (row % h) + row / h + col == t);
    assert(t % n == t) by (nonlinear_arith)
        requires
            0 <= t < n,
    ;
}

/// A cell of the first region of a regular board is the pattern cell of its
/// own pattern value.
pub proof fn lemma_first_cell(size: BoardSize, d: Coord)
    requires
        in_grid(size.cells(), d),
        BoardKind::Regular.region_at(size, d) == 0,
    ensures
        pattern_cell(size, pattern(size, d)) == d,
{
    size.lemma_region_shape();
    let w = size.region_width() as int;
    let h = size.region_height() as int;
    let n = size.cells() as int;
    let row = d.row as int;
    let col = d.col as int;
    lemma_split(row, h, w);
    lemma_split(col, w, h);
    assert(row / h == 0 && col / w == 0) by (nonlinear_arith)
        requires
            (row / h) * h + col / w == 0,
            row / h >= 0,
            col / w >= 0,
            h > 0,
    ;
    assert(row % h == row);
    assert(col % w == col);
    let t = w * row + col;
    assert(0 <= t < n) by (nonlinear_arith)
        requires
            0 <= row < h,
            0 <= col < w,
            n == w * h,
            t == w * row + col,
    ;
    assert(t % n == t) by (nonlinear_arith)
        requires
            0 <= t < n,
    ;
    assert(pattern(size, d) == t);
    lemma_split(t, w, h);
    lemma_digits(w, row, col, t / w, t % w);
}

/// On a regular board, the first region is region `0`: exactly its cells, each once.
pub proof fn lemma_first_region(b: Board)
    requires
        b.wf(),
        b.kind is Regular,
    ensures
        first_region(b).len() == b.n(),
        first_region(b).no_duplicates(),
        forall|c: Coord| #[trigger] first_region(b).contains(c) <==> (in_grid(b.n(), c)
            && BoardKind::Regular.region_at(b.size, c) == 0),
{
    let origin = Coord { row: 0, col: 0 };
    b.kind.lemma_balanced(b.size);
    b.kind.lemma_sibling_seq(b.size, origin);
    let sib = b.kind.sibling_seq(b.size, origin);
    let cells = first_region(b);
    b.size.lemma_region_shape();
    assert(BoardKind::Regular.region_at(b.size, origin) == 0);
    assert forall|c: Coord| #[trigger] cells.contains(c) <==> (in_grid(b.n(), c) && BoardKind::Regular.region_at(b.size, c)
        == 0) by {
        if cells.contains(c) {
            let i = choose|i: int| 0 <= i < cells.len() && cells[i] == c;
            if i > 0 {
                assert(sib[i - 1] == c);
                assert(sib.contains(c));
            }
        }
        if in_grid(b.n(), c) && BoardKind::Regular.region_at(b.size, c) == 0 {
            if c == origin {
                assert(cells[0] == c);
            } else {
                assert(sib.contains(c));
                let j = choose|j: int| 0 <= j < sib.len() && sib[j] == c;
                assert(cells[j + 1] == c);
            }
        }
    }
    assert forall|i: int, j: int| 0 <= i < j < cells.len() implies cells[i] != cells[j] by {
        if i == 0 {
            assert(sib[j - 1] == cells[j]);
            assert(sib.contains(cells[j]));
        } else {
            assert(cells[i] == sib[i - 1]);
            assert(cells[j] == sib[j - 1]);
        }
    }
}

/// A fresh regular board seeded with a permutation has a solution: the
/// pattern renamed after the seeded values.
pub proof fn lemma_seeded_solvable(b: Board, s: Board, p: Seq<u8>)
    requires
        b.wf(),
        b.kind is Regular,
        forall|c: Coord| in_grid(b.n(), c) ==> #[trigger] b.at(c) == CellView::Notes(full_notes(b.n())),
        is_permutation(p, b.n()),
        s.size == b.size,
        s.kind == b.kind,
        forall|c: Coord| in_grid(b.n(), c) ==> #[trigger] s.at(c) == seeded_at(b, first_region(b), p, b.n() as int, c),
    ensures
        s.admits(pattern_grid(b, p)),
{
    let n = b.n();
    let size = b.size;
    let cells = first_region(b);
    let sol = pattern_grid(b, p);
    b.size.lemma_region_shape();
    lemma_permutation(p, n);
    lemma_first_region(b);
    let idx = |c: Coord| cells.index_of(pattern_cell(size, pattern(size, c)));
    assert forall|c: Coord| in_grid(n, c) implies #[trigger] val(sol, c) == p[idx(c)] && 0 <= idx(c) < n
        && cells[idx(c)] == pattern_cell(size, pattern(size, c)) by {
        assert(Coord { row: c.row, col: c.col } == c);
        let t = pattern(size, c);
        assert(0 <= t < n) by {
            lemma_mod_bound(
                size.region_width() as int * (c.row as int % size.region_height() as int) + c.row as int
                    / size.region_height() as int + c.col as int,
                n as int,
            );
        }
        lemma_pattern_cell(size, t);
        assert(cells.contains(pattern_cell(size, t)));
    }
    assert forall|c: Coord| in_grid(n, c) implies #[trigger] val(sol, c) < n by {
        assert(val(sol, c) == p[idx(c)]);
    }
    assert forall|x: Coord, y: Coord|
        #![trigger val(sol, x), val(sol, y)]
        s.related(x, y) implies val(sol, x) != val(sol, y) by {
        assert(val(sol, x) == p[idx(x)]);
        assert(val(sol, y) == p[idx(y)]);
        lemma_pattern_distinct(size, x, y);
        let tx = pattern(size, x);
        let ty = pattern(size, y);
        assert(0 <= tx < n && 0 <= ty < n) by {
            lemma_mod_bound(
                size.region_width() as int * (x.row as int % size.region_height() as int) + x.row as int
                    / size.region_height() as int + x.col as int,
                n as int,
            );
            lemma_mod_bound(
                size.region_width() as int * (y.row as int % size.region_height() as int) + y.row as int
                    / size.region_height() as int + y.col as int,
                n as int,
            );
        }
        lemma_pattern_cell(size, tx);
        lemma_pattern_cell(size, ty);
        if idx(x) == idx(y) {
            assert(pattern_cell(size, tx) == pattern_cell(size, ty));
        }
    }
    assert(cells.take(n as int) == cells);
    assert forall|c: Coord| in_grid(n, c) implies allows(#[trigger] s.at(c), val(sol, c)) by {
        if cells.contains(c) {
            lemma_first_cell(size, c);
            let i = cells.index_of(c);
            assert(cells[i] == c);
            assert(idx(c) == i);
        } else {
            let seen = seen_in_lines(cells, p, n as int, c);
            assert(s.at(c) == CellView::Notes(full_notes(n).difference(seen)));
            if seen.contains(val(sol, c)) {
                let i = choose|i: int| 0 <= i < n && p[i] == val(sol, c) && (#[trigger] cells[i].row == c.row || cells[i].col == c.col);
                let d = cells[i];
                assert(cells.contains(d));
                lemma_first_cell(size, d);
                assert(cells.index_of(d) == i);
                assert(val(sol, d) == p[i]);
                assert(s.related(c, d));
            }
        }
    }
}

} // verus!
