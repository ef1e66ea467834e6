//! Solutions of a board, and why the solving steps never lose one.
use crate::board::{strip, with_note, Board};
use crate::cell::{CellView, Coord};
use crate::lines::{holds, LineKind};
use crate::progress::lemma_refines_refl;
use crate::region::in_grid;
use vstd::prelude::*;
use vstd::relations::injective_on;
use vstd::set_lib::{lemma_int_range, lemma_map_size, lemma_subset_equality, set_int_range};

verus! {

/// The value that the grid `sol` gives the cell `c`.
pub open spec fn val(sol: Seq<Seq<u8>>, c: Coord) -> u8 {
    sol[c.row as int][c.col as int]
}

/// The value `x` of a solution fits the cell `c` of a puzzle: a filled cell
/// keeps its value and an empty cell gets one of its candidates.
pub open spec fn allows(c: CellView, x: u8) -> bool {
    match c {
        CellView::Value(v) => x == v,
        CellView::Notes(s) => s.contains(x),
    }
}

impl Board {
    /// `sol` is a completed grid for the shape of `self`: `n` rows of `n`
    /// values below `n`, and no two related cells with the same value.
    pub open spec fn fills(&self, sol: Seq<Seq<u8>>) -> bool {
        &&& sol.len() == self.n()
        &&& forall|i: int| 0 <= i < self.n() ==> #[trigger] sol[i].len() == self.n()
        &&& forall|c: Coord| in_grid(self.n(), c) ==> #[trigger] val(sol, c) < self.n()
        &&& forall|a: Coord, b: Coord|
            #![trigger val(sol, a), val(sol, b)]
            self.related(a, b) ==> val(sol, a) != val(sol, b)
    }

    /// `sol` solves `self`: a completed grid for its shape whose every value
    /// fits the cell of `self`.
    pub open spec fn admits(&self, sol: Seq<Seq<u8>>) -> bool {
        &&& self.fills(sol)
        &&& forall|c: Coord| in_grid(self.n(), c) ==> allows(#[trigger] self.at(c), val(sol, c))
    }

    /// Some grid solves `self`.
    pub open spec fn solvable(&self) -> bool {
        exists|sol: Seq<Seq<u8>>| self.admits(sol)
    }

    /// When `self` is consistent, every grid that solves `self` solves `other`.
    pub open spec fn keeps_solutions(&self, other: Board) -> bool {
        self.consistent() ==> forall|sol: Seq<Seq<u8>>| #[trigger] self.admits(sol) ==> other.admits(sol)
    }
}

/// The values of the cells of `b`, row by row.
pub open spec fn values_of(b: Board) -> Seq<Seq<u8>> {
    Seq::new(b.n(), |r: int| Seq::new(b.n(), |c: int| b.at(Coord { row: r as usize, col: c as usize })->Value_0))
}

/// `cells` is a row, a column or a region of `b`: as many distinct cells of
/// the grid as a row, any two of them related.
pub open spec fn is_group(b: Board, cells: Seq<Coord>) -> bool {
    &&& cells.len() == b.n()
    &&& cells.no_duplicates()
    &&& forall|k: int| 0 <= k < cells.len() ==> in_grid(b.n(), #[trigger] cells[k])
    &&& forall|x: Coord, y: Coord|
        #![trigger cells.contains(x), cells.contains(y)]
        cells.contains(x) && cells.contains(y) && x != y ==> b.related(x, y)
}

/// The cells of `line`, in walking order.
pub open spec fn line_cells(b: Board, line: LineKind) -> Seq<Coord> {
    Seq::new(b.n(), |k: int| line.cell(k))
}

/// Every board keeps its own solutions.
pub proof fn lemma_keeps_refl(a: Board)
    ensures
        a.keeps_solutions(a),
{
}

/// Keeping solutions composes along steps that keep consistency.
pub proof fn lemma_keeps_trans(a: Board, b: Board, c: Board)
    requires
        a.keeps_solutions(b),
        b.keeps_solutions(c),
        a.consistent() ==> b.consistent(),
    ensures
        a.keeps_solutions(c),
{
    if a.consistent() {
        assert forall|sol: Seq<Seq<u8>>| #[trigger] a.admits(sol) implies c.admits(sol) by {
            assert(b.admits(sol));
        }
    }
}

/// A line of the grid is a group.
pub proof fn lemma_line_group(b: Board, line: LineKind)
    requires
        line.line_index() < b.n(),
    ensures
        is_group(b, line_cells(b, line)),
{
    let cells = line_cells(b, line);
    assert forall|i: int, j: int| 0 <= i < j < cells.len() implies cells[i] != cells[j] by {
        assert(cells[i] == line.cell(i) && cells[j] == line.cell(j));
    }
    assert forall|x: Coord, y: Coord|
        #![trigger cells.contains(x), cells.contains(y)]
        cells.contains(x) && cells.contains(y) && x != y implies b.related(x, y) by {
        let i = choose|i: int| 0 <= i < cells.len() && cells[i] == x;
        let j = choose|j: int| 0 <= j < cells.len() && cells[j] == y;
        assert(x == line.cell(i) && y == line.cell(j));
    }
}

/// A region of a well-formed board is a group.
pub proof fn lemma_region_group(b: Board, r: int)
    requires
        b.wf(),
        0 <= r < b.n(),
    ensures
        is_group(b, b.kind.member_seq(b.size, r)),
        forall|c: Coord| #[trigger]
            b.kind.member_seq(b.size, r).contains(c) <==> (in_grid(b.n(), c) && b.kind.region_at(b.size, c) == r),
{
    b.kind.lemma_balanced(b.size);
    b.kind.lemma_member_seq(b.size, r);
    let cells = b.kind.member_seq(b.size, r);
    assert forall|k: int| 0 <= k < cells.len() implies in_grid(b.n(), #[trigger] cells[k]) by {
        assert(cells.contains(cells[k]));
    }
}

/// A group of a board solved by `sol` holds, in `sol`, every value below the
/// row length.
pub proof fn lemma_group_has(b: Board, sol: Seq<Seq<u8>>, cells: Seq<Coord>, v: u8)
    requires
        b.fills(sol),
        is_group(b, cells),
        v < b.n(),
    ensures
        exists|d: Coord| cells.contains(d) && val(sol, d) == v,
{
    let n = b.n();
    let s = cells.to_set();
    cells.unique_seq_to_set();
    let f = |c: Coord| val(sol, c) as int;
    assert(injective_on(f, s)) by {
        assert forall|x: Coord, y: Coord| s.contains(x) && s.contains(y) && #[trigger] f(x) == #[trigger] f(y) implies x == y by {
            if x != y {
                assert(b.related(x, y));
            }
        }
    }
    let img = s.map(f);
    lemma_map_size(s, img, f);
    assert(img.subset_of(set_int_range(0, n as int))) by {
        assert forall|y: int| img.contains(y) implies set_int_range(0, n as int).contains(y) by {
            let x = choose|x: Coord| s.contains(x) && y == f(x);
            let i = choose|i: int| 0 <= i < cells.len() && cells[i] == x;
            assert(in_grid(n, cells[i]));
        }
    }
    lemma_int_range(0, n as int);
    lemma_subset_equality(img, set_int_range(0, n as int));
    assert(set_int_range(0, n as int).contains(v as int));
    assert(img.contains(v as int));
    let d = choose|d: Coord| s.contains(d) && v as int == f(d);
    assert(cells.contains(d));
}

/// In a consistent board solved by `sol`, a value that some cell of a group
/// still has as a candidate stands, in `sol`, on a cell of the group that has
/// it as a candidate.
pub proof fn lemma_value_on_holder(b: Board, sol: Seq<Seq<u8>>, cells: Seq<Coord>, v: u8, e: Coord)
    requires
        b.consistent(),
        b.admits(sol),
        is_group(b, cells),
        v < b.n(),
        cells.contains(e),
        holds(b.at(e), v),
    ensures
        exists|d: Coord| cells.contains(d) && val(sol, d) == v && holds(b.at(d), v),
{
    lemma_group_has(b, sol, cells, v);
    let d = choose|d: Coord| cells.contains(d) && val(sol, d) == v;
    let i = choose|i: int| 0 <= i < cells.len() && cells[i] == d;
    assert(in_grid(b.n(), cells[i]));
    assert(allows(b.at(d), val(sol, d)));
    if b.at(d) is Value {
        assert(b.at(d) == CellView::Value(v));
        assert(e != d);
        assert(b.related(e, d));
        assert(b.at(e) is Notes && b.at(d) is Value);
    }
}

/// The cells that alone hold a set of as many candidates as there are cells
/// take, in `sol`, exactly those candidates.
pub proof fn lemma_set_fills(b: Board, sol: Seq<Seq<u8>>, cells: Seq<Coord>, cands: Seq<u8>, cs: Seq<Coord>)
    requires
        b.consistent(),
        b.admits(sol),
        is_group(b, cells),
        cands.no_duplicates(),
        cs.no_duplicates(),
        cands.len() == cs.len(),
        cs.len() > 0,
        forall|c: Coord| #[trigger] cs.contains(c) ==> cells.contains(c),
        forall|w: u8| #[trigger] cands.contains(w) ==> w < b.n(),
        forall|w: u8, d: Coord|
            #![trigger cands.contains(w), cells.contains(d), b.at(d)]
            cands.contains(w) && cells.contains(d) ==> (holds(b.at(d), w) <==> cs.contains(d)),
    ensures
        forall|w: u8| #[trigger] cands.contains(w) ==> exists|d: Coord| cs.contains(d) && val(sol, d) == w,
        forall|c: Coord| #[trigger] cs.contains(c) ==> cands.contains(val(sol, c)),
{
    assert forall|w: u8| #[trigger] cands.contains(w) implies exists|d: Coord| cs.contains(d) && val(sol, d) == w by {
        let e = cs[0];
        assert(cs.contains(e));
        assert(holds(b.at(e), w));
        lemma_value_on_holder(b, sol, cells, w, e);
        let d = choose|d: Coord| cells.contains(d) && val(sol, d) == w && holds(b.at(d), w);
        assert(cs.contains(d));
    }
    let s = cands.to_set();
    let t = cs.to_set();
    cands.unique_seq_to_set();
    cs.unique_seq_to_set();
    let f = |w: u8| choose|d: Coord| cs.contains(d) && val(sol, d) == w;
    assert forall|w: u8| s.contains(w) implies cs.contains(#[trigger] f(w)) && val(sol, f(w)) == w by {
        assert(cands.contains(w));
    }
    assert(injective_on(f, s)) by {
        assert forall|x: u8, y: u8| s.contains(x) && s.contains(y) && #[trigger] f(x) == #[trigger] f(y) implies x == y by {
            assert(val(sol, f(x)) == x);
            assert(val(sol, f(y)) == y);
        }
    }
    let img = s.map(f);
    lemma_map_size(s, img, f);
    assert(img.subset_of(t)) by {
        assert forall|d: Coord| img.contains(d) implies t.contains(d) by {
            let w = choose|w: u8| s.contains(w) && d == f(w);
            assert(cs.contains(f(w)));
        }
    }
    lemma_subset_equality(img, t);
    assert forall|c: Coord| #[trigger] cs.contains(c) implies cands.contains(val(sol, c)) by {
        assert(t.contains(c));
        assert(img.contains(c));
        let w = choose|w: u8| s.contains(w) && c == f(w);
        assert(val(sol, f(w)) == w);
    }
}

/// Writing at `x` the value that `sol` has there, and removing it from the
/// candidates of the related cells, keeps `sol` a solution.
pub proof fn lemma_place_admits(b: Board, b2: Board, x: Coord, v: u8, sol: Seq<Seq<u8>>)
    requires
        b.admits(sol),
        in_grid(b.n(), x),
        val(sol, x) == v,
        b2.size == b.size,
        b2.kind == b.kind,
        forall|c: Coord| in_grid(b.n(), c) ==> #[trigger] b2.at(c) == b.placed(x, v, c),
    ensures
        b2.admits(sol),
{
    assert forall|c: Coord| in_grid(b2.n(), c) implies allows(#[trigger] b2.at(c), val(sol, c)) by {
        assert(b2.at(c) == b.placed(x, v, c));
        assert(allows(b.at(c), val(sol, c)));
        if c != x && b.related(x, c) {
            assert(val(sol, c) != val(sol, x));
            assert(b2.at(c) == strip(b.at(c), v));
        }
    }
}

/// A board that has a solution has no empty cell without candidates.
pub proof fn lemma_admits_not_stuck(b: Board, sol: Seq<Seq<u8>>)
    requires
        b.admits(sol),
    ensures
        !b.stuck(),
{
    assert forall|c: Coord| in_grid(b.n(), c) && #[trigger] b.at(c) is Notes implies !(b.at(c)->Notes_0
        =~= Set::<u8>::empty()) by {
        assert(allows(b.at(c), val(sol, c)));
        assert(b.at(c)->Notes_0.contains(val(sol, c)));
    }
}

/// The values of a filled, conflict-free board that refines `b` solve it.
pub proof fn lemma_refined_solution(b: Board, done: Board)
    requires
        done.refines(b),
        done.solved(),
        done.no_conflict(),
    ensures
        b.admits(values_of(done)),
{
    let sol = values_of(done);
    let n = b.n();
    assert forall|c: Coord| in_grid(n, c) implies #[trigger] done.at(c) == CellView::Value(val(sol, c)) by {
        assert(done.at(c) is Value);
        assert(sol[c.row as int][c.col as int] == done.at(Coord { row: c.row, col: c.col })->Value_0);
    }
    assert forall|c: Coord| in_grid(n, c) implies #[trigger] val(sol, c) < n by {
        assert(done.at(c) == CellView::Value(val(sol, c)));
    }
    assert forall|x: Coord, y: Coord|
        #![trigger val(sol, x), val(sol, y)]
        b.related(x, y) implies val(sol, x) != val(sol, y) by {
        assert(done.at(x) == CellView::Value(val(sol, x)));
        assert(done.at(y) == CellView::Value(val(sol, y)));
        assert(done.related(x, y));
    }
    assert forall|c: Coord| in_grid(n, c) implies allows(#[trigger] b.at(c), val(sol, c)) by {
        assert(done.at(c) == CellView::Value(val(sol, c)));
    }
}

/// A filled, conflict-free board is solved by its own values.
pub proof fn lemma_own_solution(b: Board)
    requires
        b.solved(),
        b.no_conflict(),
    ensures
        b.admits(values_of(b)),
{
    lemma_refines_refl(b);
    lemma_refined_solution(b, b);
}

/// A board of the same size, the same regions and the same cells as `a` has
/// the solutions of `a`.
pub proof fn lemma_admits_same_shape(a: Board, b: Board, sol: Seq<Seq<u8>>)
    requires
        a.admits(sol),
        b.size == a.size,
        forall|c: Coord| #[trigger] b.kind.region_at(b.size, c) == a.kind.region_at(a.size, c),
        forall|c: Coord| in_grid(a.n(), c) ==> #[trigger] b.at(c) == a.at(c),
    ensures
        b.admits(sol),
{
    assert forall|x: Coord, y: Coord|
        #![trigger val(sol, x), val(sol, y)]
        b.related(x, y) implies val(sol, x) != val(sol, y) by {
        assert(a.related(x, y));
    }
    assert forall|c: Coord| in_grid(b.n(), c) implies allows(#[trigger] b.at(c), val(sol, c)) by {
        assert(allows(a.at(c), val(sol, c)));
    }
}

/// Clearing a cell keeps every solution: the cell gets back the candidates
/// that no related cell holds, among them its solution value, and the related
/// cells only gain a candidate.
pub proof fn lemma_clear_admits(b: Board, b2: Board, coord: Coord, sol: Seq<Seq<u8>>)
    requires
        b.admits(sol),
        b2.size == b.size,
        b2.kind == b.kind,
        forall|c: Coord| in_grid(b.n(), c) ==> #[trigger] b2.at(c) == b.after_clear(coord, c),
    ensures
        b2.admits(sol),
{
    assert forall|c: Coord| in_grid(b2.n(), c) implies allows(#[trigger] b2.at(c), val(sol, c)) by {
        assert(b2.at(c) == b.after_clear(coord, c));
        assert(allows(b.at(c), val(sol, c)));
        if in_grid(b.n(), coord) && b.at(coord) is Value {
            let v = b.at(coord)->Value_0;
            assert(allows(b.at(coord), val(sol, coord)));
            if c == coord {
                assert(val(sol, c) < b.n());
                if b.seen_value(coord, v) {
                    let d = choose|d: Coord| #[trigger] b.related(coord, d) && b.at(d) == CellView::Value(v);
                    assert(allows(b.at(d), val(sol, d)));
                }
            } else if b.related(coord, c) {
                assert(b2.at(c) == with_note(b.at(c), v));
            }
        }
    }
}

/// Changing only cells in ways that still fit `sol` keeps `sol` a solution.
pub proof fn lemma_admits_change(b: Board, b2: Board, sol: Seq<Seq<u8>>)
    requires
        b.admits(sol),
        b2.size == b.size,
        b2.kind == b.kind,
        forall|c: Coord| in_grid(b.n(), c) && #[trigger] b2.at(c) != b.at(c) ==> allows(b2.at(c), val(sol, c)),
    ensures
        b2.admits(sol),
{
    assert forall|c: Coord| in_grid(b2.n(), c) implies allows(#[trigger] b2.at(c), val(sol, c)) by {
        assert(allows(b.at(c), val(sol, c)));
    }
}

} // verus!
