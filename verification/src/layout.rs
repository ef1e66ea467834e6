//! Why the regular layout is a valid map, and why swapping two bordering
//! cells of different regions keeps a map valid when both regions stay
//! contiguous.
use crate::cell::{neighbor_seq, lemma_neighbor_in_grid, Cardinal, Coord};
use crate::map_gen::{cell_in, regular_map, set_region};
use crate::region::{
    closed_in, grid_part, in_grid, lemma_grid_part, map_region, region_connected, row_part, valid_map,
    BoardKind,
};
use crate::size::BoardSize;
use vstd::arithmetic::div_mod::{lemma_fundamental_div_mod, lemma_mod_bound};
use vstd::prelude::*;

verus! {

/// `c` lies in the rectangle of `h` rows from `r0` and `w` columns from `c0`.
pub open spec fn in_rect(c: Coord, r0: int, c0: int, h: int, w: int) -> bool {
    r0 <= c.row < r0 + h && c0 <= c.col < c0 + w
}

/// `d` is next to `c`: one step north, east, south or west.
pub open spec fn adjacent(c: Coord, d: Coord) -> bool {
    ||| d.row == c.row && (d.col == c.col + 1 || d.col + 1 == c.col)
    ||| d.col == c.col && (d.row == c.row + 1 || d.row + 1 == c.row)
}

/// A cell of the grid next to `c` is one of the neighbors of `c`.
pub proof fn lemma_neighbor_listed(n: nat, c: Coord, d: Coord)
    requires
        in_grid(n, c),
        in_grid(n, d),
        adjacent(c, d),
    ensures
        exists|k: int| 0 <= k < neighbor_seq(n - 1, c).len() && #[trigger] neighbor_seq(n - 1, c)[k] == d,
{
    let m = n - 1;
    let a = crate::cell::opt_seq(Cardinal::North.step(c, m));
    let b = crate::cell::opt_seq(Cardinal::East.step(c, m));
    let e = crate::cell::opt_seq(Cardinal::South.step(c, m));
    let f = crate::cell::opt_seq(Cardinal::West.step(c, m));
    let s = neighbor_seq(m, c);
    assert(s == a + b + e + f);
    if d.row + 1 == c.row && d.col == c.col {
        assert(a == seq![d]);
        assert(s[0] == d);
    } else if d.row == c.row && d.col == c.col + 1 {
        assert(b == seq![d]);
        assert(s[a.len() as int] == d);
    } else if d.row == c.row + 1 && d.col == c.col {
        assert(e == seq![d]);
        assert(s[(a.len() + b.len()) as int] == d);
    } else {
        assert(f == seq![d]);
        assert(s[(a.len() + b.len() + e.len()) as int] == d);
    }
}

/// A set closed in the region `f` that holds a cell of the region holds the
/// cells of the region next to it.
pub proof fn lemma_step(n: nat, f: spec_fn(Coord) -> bool, s: Set<Coord>, c: Coord, d: Coord)
    requires
        closed_in(n, f, s),
        s.contains(c),
        in_grid(n, c),
        in_grid(n, d),
        f(c),
        f(d),
        adjacent(c, d),
    ensures
        s.contains(d),
{
    lemma_neighbor_listed(n, c, d);
    let k = choose|k: int| 0 <= k < neighbor_seq(n - 1, c).len() && #[trigger] neighbor_seq(n - 1, c)[k] == d;
    assert(s.contains(neighbor_seq(n - 1, c)[k]));
}

/// Within a rectangular region, a closed set that holds one cell holds every cell.
pub proof fn lemma_walk(
    n: nat,
    f: spec_fn(Coord) -> bool,
    s: Set<Coord>,
    r0: int,
    c0: int,
    h: int,
    w: int,
    x: Coord,
    y: Coord,
)
    requires
        0 <= r0,
        0 <= c0,
        r0 + h <= n,
        c0 + w <= n,
        forall|c: Coord| in_grid(n, c) ==> (#[trigger] f(c) <==> in_rect(c, r0, c0, h, w)),
        closed_in(n, f, s),
        in_rect(x, r0, c0, h, w),
        in_rect(y, r0, c0, h, w),
        s.contains(x),
    ensures
        s.contains(y),
    decreases (if x.col < y.col { y.col - x.col } else { x.col - y.col }) + (if x.row < y.row {
        y.row - x.row
    } else {
        x.row - y.row
    }),
{
    if x != y {
        let z = if x.col < y.col {
            Coord { row: x.row, col: (x.col + 1) as usize }
        } else if x.col > y.col {
            Coord { row: x.row, col: (x.col - 1) as usize }
        } else if x.row < y.row {
            Coord { row: (x.row + 1) as usize, col: x.col }
        } else {
            Coord { row: (x.row - 1) as usize, col: x.col }
        };
        assert(in_grid(n, x) && in_grid(n, z));
        assert(f(x) && f(z));
        lemma_step(n, f, s, x, z);
        lemma_walk(n, f, s, r0, c0, h, w, z, y);
    }
}

/// Row parts of two regions that agree on the grid are the same.
proof fn lemma_row_part_agree(f: spec_fn(Coord) -> bool, g: spec_fn(Coord) -> bool, n: nat, row: nat, j: nat)
    requires
        row < n,
        j <= n,
        forall|c: Coord| in_grid(n, c) ==> #[trigger] f(c) == g(c),
    ensures
        row_part(f, row, j) == row_part(g, row, j),
    decreases j,
{
    if j > 0 {
        lemma_row_part_agree(f, g, n, row, (j - 1) as nat);
        let c = Coord { row: row as usize, col: (j - 1) as usize };
        assert(in_grid(n, c));
        assert(f(c) == g(c));
    }
}

/// Grid parts of two regions that agree on the grid are the same.
pub proof fn lemma_grid_part_agree(f: spec_fn(Coord) -> bool, g: spec_fn(Coord) -> bool, n: nat, a: nat)
    requires
        a <= n,
        forall|c: Coord| in_grid(n, c) ==> #[trigger] f(c) == g(c),
    ensures
        grid_part(f, n, a) == grid_part(g, n, a),
    decreases a,
{
    if a > 0 {
        lemma_grid_part_agree(f, g, n, (a - 1) as nat);
        lemma_row_part_agree(f, g, n, (a - 1) as nat, n);
    }
}

/// A region that agrees on the grid with a contiguous region is contiguous.
pub proof fn lemma_connected_agree(n: nat, f: spec_fn(Coord) -> bool, g: spec_fn(Coord) -> bool)
    requires
        n <= 16,
        region_connected(n, f),
        forall|c: Coord| in_grid(n, c) ==> #[trigger] f(c) == g(c),
    ensures
        region_connected(n, g),
{
    lemma_grid_part_agree(f, g, n, n);
    let cells = grid_part(g, n, n);
    assert forall|s: Set<Coord>|
        #![trigger closed_in(n, g, s)]
        closed_in(n, g, s) && s.contains(cells[0]) implies forall|c: Coord|
            in_grid(n, c) && g(c) ==> #[trigger] s.contains(c) by {
        assert(closed_in(n, f, s)) by {
            assert forall|c: Coord, k: int|
                #![trigger s.contains(c), neighbor_seq(n - 1, c)[k]]
                s.contains(c) && in_grid(n, c) && f(c) && 0 <= k < neighbor_seq(n - 1, c).len() && f(
                    neighbor_seq(n - 1, c)[k],
                ) implies s.contains(neighbor_seq(n - 1, c)[k]) by {
                lemma_neighbor_in_grid(n - 1, c, k);
                assert(in_grid(n, neighbor_seq(n - 1, c)[k]));
                assert(g(c) && g(neighbor_seq(n - 1, c)[k]));
            }
        }
        assert forall|c: Coord| in_grid(n, c) && g(c) implies #[trigger] s.contains(c) by {
            assert(f(c));
        }
    }
}

/// The cells of region `r` of the regular layout form the rectangle of its block.
proof fn lemma_regular_rect(size: BoardSize, r: int, c: Coord)
    requires
        0 <= r < size.cells(),
        in_grid(size.cells(), c),
    ensures
        ({
            let w = size.region_width() as int;
            let h = size.region_height() as int;
            &&& (map_region(regular_map(size), r)(c) <==> in_rect(c, (r / h) * h, (r % h) * w, h, w))
            &&& 0 <= (r / h) * h
            &&& (r / h) * h + h <= size.cells()
            &&& 0 <= (r % h) * w
            &&& (r % h) * w + w <= size.cells()
        }),
{
    size.lemma_region_shape();
    let n = size.cells() as int;
    let w = size.region_width() as int;
    let h = size.region_height() as int;
    let row = c.row as int;
    let col = c.col as int;
    BoardKind::Regular.lemma_region_bound(size, c);
    let v = BoardKind::Regular.region_at(size, c);
    assert(Coord { row: c.row as int as usize, col: c.col as int as usize } == c);
    assert(regular_map(size)[row][col] == v as u8);
    lemma_fundamental_div_mod(row, h);
    lemma_mod_bound(row, h);
    lemma_fundamental_div_mod(col, w);
    lemma_mod_bound(col, w);
    lemma_fundamental_div_mod(r, h);
    lemma_mod_bound(r, h);
    assert(0 <= row / h && 0 <= col / w && 0 <= r / h) by (nonlinear_arith)
        requires
            row >= 0,
            col >= 0,
            r >= 0,
            h > 0,
            w > 0,
    ;
    assert(col / w < h) by (nonlinear_arith)
        requires
            col == w * (col / w) + col % w,
            0 <= col % w < w,
            col < w * h,
            w > 0,
    ;
    assert(r / h < w) by (nonlinear_arith)
        requires
            r == h * (r / h) + r % h,
            0 <= r % h < h,
            r < w * h,
            h > 0,
    ;
    assert((r / h) * h + h <= n) by (nonlinear_arith)
        requires
            r / h < w,
            n == w * h,
            h > 0,
    ;
    assert((r % h) * w + w <= n) by (nonlinear_arith)
        requires
            r % h < h,
            n == w * h,
            w > 0,
    ;
    assert(0 <= (r % h) * w) by (nonlinear_arith)
        requires
            r % h >= 0,
            w > 0,
    ;
    assert(0 <= (r / h) * h) by (nonlinear_arith)
        requires
            r / h >= 0,
            h > 0,
    ;
    // region_at(c) == r exactly when the block row and block column match
    assert(v == (row / h) * h + col / w);
    assert((v == r) <==> (row / h == r / h && col / w == r % h)) by (nonlinear_arith)
        requires
            v == (row / h) * h + col / w,
            r == h * (r / h) + r % h,
            0 <= col / w < h,
            0 <= r % h < h,
            h > 0,
    ;
    assert((row / h == r / h) <==> ((r / h) * h <= row < (r / h) * h + h)) by (nonlinear_arith)
        requires
            row == h * (row / h) + row % h,
            0 <= row % h < h,
            h > 0,
    ;
    assert((col / w == r % h) <==> ((r % h) * w <= col < (r % h) * w + w)) by (nonlinear_arith)
        requires
            col == w * (col / w) + col % w,
            0 <= col % w < w,
            w > 0,
    ;
}

/// Every region of the regular layout is contiguous.
pub proof fn lemma_regular_connected(size: BoardSize, r: int)
    requires
        0 <= r < size.cells(),
    ensures
        region_connected(size.cells(), map_region(regular_map(size), r)),
{
    size.lemma_region_shape();
    let n = size.cells();
    let w = size.region_width() as int;
    let h = size.region_height() as int;
    let f = map_region(regular_map(size), r);
    let r0 = (r / h) * h;
    let c0 = (r % h) * w;
    let corner = Coord { row: r0 as usize, col: c0 as usize };
    lemma_regular_rect(size, r, corner);
    assert forall|c: Coord| in_grid(n, c) implies (#[trigger] f(c) <==> in_rect(c, r0, c0, h, w)) by {
        lemma_regular_rect(size, r, c);
    }
    lemma_grid_part(f, n, n);
    let cells = grid_part(f, n, n);
    assert(cells.contains(corner));
    assert(cells.len() > 0);
    assert(cells.contains(cells[0]));
    assert forall|s: Set<Coord>|
        #![trigger closed_in(n, f, s)]
        closed_in(n, f, s) && s.contains(cells[0]) implies forall|c: Coord|
            in_grid(n, c) && f(c) ==> #[trigger] s.contains(c) by {
        assert forall|c: Coord| in_grid(n, c) && f(c) implies #[trigger] s.contains(c) by {
            lemma_walk(n, f, s, r0, c0, h, w, cells[0], c);
        }
    }
}

/// The regular layout is a valid map.
pub proof fn lemma_regular_valid(size: BoardSize)
    ensures
        valid_map(regular_map(size)),
{
    size.lemma_region_shape();
    let n = size.cells();
    let m = regular_map(size);
    assert forall|i: int, j: int| 0 <= i < m.len() && 0 <= j < m.len() implies #[trigger] m[i][j] < m.len() by {
        let c = Coord { row: i as usize, col: j as usize };
        BoardKind::Regular.lemma_region_bound(size, c);
    }
    BoardKind::Regular.lemma_balanced(size);
    assert forall|r: int| 0 <= r < m.len() implies #[trigger] grid_part(map_region(m, r), m.len(), m.len()).len()
        == m.len() by {
        assert forall|c: Coord| in_grid(n, c) implies #[trigger] map_region(m, r)(c) == BoardKind::Regular.in_region(
            size,
            r,
        )(c) by {
            BoardKind::Regular.lemma_region_bound(size, c);
            assert(Coord { row: c.row as int as usize, col: c.col as int as usize } == c);
        }
        lemma_grid_part_agree(map_region(m, r), BoardKind::Regular.in_region(size, r), n, n);
    }
    assert forall|r: int| 0 <= r < m.len() implies #[trigger] region_connected(m.len(), map_region(m, r)) by {
        lemma_regular_connected(size, r);
    }
}

/// Swapping two cells of different regions keeps the number of cells of every region.
proof fn lemma_swap_count(m: Seq<Seq<u8>>, n: nat, a: Coord, b: Coord, r0: u8, r1: u8, r: int)
    requires
        n <= 16,
        m.len() == n,
        forall|i: int| 0 <= i < n ==> #[trigger] m[i].len() == n,
        cell_in(m, n, a, r0 as int),
        cell_in(m, n, b, r1 as int),
        r0 != r1,
    ensures
        grid_part(map_region(set_region(set_region(m, a, r1), b, r0), r), n, n).len() == grid_part(
            map_region(m, r),
            n,
            n,
        ).len(),
{
    let sw = set_region(set_region(m, a, r1), b, r0);
    let f = map_region(m, r);
    let g = map_region(sw, r);
    assert(a != b);
    assert forall|c: Coord| in_grid(n, c) implies #[trigger] g(c) == if c == a {
        r1 as int == r
    } else if c == b {
        r0 as int == r
    } else {
        f(c)
    } by {
        if c.row == a.row && c.row == b.row {
        }
    }
    if r != r0 && r != r1 {
        assert forall|c: Coord| in_grid(n, c) implies #[trigger] f(c) == g(c) by {
            assert(g(c) == if c == a {
                r1 as int == r
            } else if c == b {
                r0 as int == r
            } else {
                f(c)
            });
        }
        lemma_grid_part_agree(f, g, n, n);
    } else {
        lemma_grid_part(f, n, n);
        lemma_grid_part(g, n, n);
        let sf = grid_part(f, n, n);
        let sg = grid_part(g, n, n);
        sf.unique_seq_to_set();
        sg.unique_seq_to_set();
        if r == r0 {
            assert(sg.to_set() =~= sf.to_set().remove(a).insert(b)) by {
                assert forall|c: Coord| sg.to_set().contains(c) <==> sf.to_set().remove(a).insert(b).contains(c) by {
                    assert(sg.contains(c) <==> (c.row < n && c.col < n && g(c)));
                    assert(sf.contains(c) <==> (c.row < n && c.col < n && f(c)));
                    if in_grid(n, c) {
                        assert(g(c) == if c == a {
                            r1 as int == r
                        } else if c == b {
                            r0 as int == r
                        } else {
                            f(c)
                        });
                    }
                }
            }
            assert(sf.to_set().contains(a));
            assert(!sf.to_set().contains(b));
        } else {
            assert(sg.to_set() =~= sf.to_set().remove(b).insert(a)) by {
                assert forall|c: Coord| sg.to_set().contains(c) <==> sf.to_set().remove(b).insert(a).contains(c) by {
                    assert(sg.contains(c) <==> (c.row < n && c.col < n && g(c)));
                    assert(sf.contains(c) <==> (c.row < n && c.col < n && f(c)));
                    if in_grid(n, c) {
                        assert(g(c) == if c == a {
                            r1 as int == r
                        } else if c == b {
                            r0 as int == r
                        } else {
                            f(c)
                        });
                    }
                }
            }
            assert(sf.to_set().contains(b));
            assert(!sf.to_set().contains(a));
        }
    }
}

/// Swapping two cells of different regions keeps a map valid when both
/// regions stay contiguous.
pub proof fn lemma_swap_valid(m: Seq<Seq<u8>>, a: Coord, b: Coord, r0: u8, r1: u8)
    requires
        valid_map(m),
        cell_in(m, m.len(), a, r0 as int),
        cell_in(m, m.len(), b, r1 as int),
        r0 != r1,
        region_connected(m.len(), map_region(set_region(set_region(m, a, r1), b, r0), r0 as int)),
        region_connected(m.len(), map_region(set_region(set_region(m, a, r1), b, r0), r1 as int)),
    ensures
        valid_map(set_region(set_region(m, a, r1), b, r0)),
{
    let n = m.len();
    let sw = set_region(set_region(m, a, r1), b, r0);
    assert(n <= 16);
    assert(a != b);
    assert(sw.len() == n);
    assert forall|i: int| 0 <= i < sw.len() implies #[trigger] sw[i].len() == sw.len() by {
        assert(m[i].len() == n);
    }
    assert forall|i: int, j: int| 0 <= i < sw.len() && 0 <= j < sw.len() implies #[trigger] sw[i][j] < sw.len() by {
        assert(m[i][j] < n);
        assert(m[a.row as int][a.col as int] < n);
        assert(m[b.row as int][b.col as int] < n);
    }
    assert forall|r: int| 0 <= r < sw.len() implies #[trigger] grid_part(map_region(sw, r), sw.len(), sw.len()).len()
        == sw.len() by {
        assert(grid_part(map_region(m, r), n, n).len() == n);
        lemma_swap_count(m, n, a, b, r0, r1, r);
    }
    assert forall|r: int| 0 <= r < sw.len() implies #[trigger] region_connected(sw.len(), map_region(sw, r)) by {
        if r != r0 && r != r1 {
            assert(region_connected(n, map_region(m, r)));
            assert forall|c: Coord| in_grid(n, c) implies #[trigger] map_region(m, r)(c) == map_region(sw, r)(c) by {
                if c.row == a.row && c.row == b.row {
                }
            }
            lemma_connected_agree(n, map_region(m, r), map_region(sw, r));
        }
    }
}

} // verus!
