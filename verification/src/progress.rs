//! What every solving step keeps (the filled cells, consistent notes, no
//! conflicting values) and how it makes progress (fewer candidates).
use crate::board::{lemma_strip_idem, strip, Board};
use crate::cell::{CellView, Coord};
use crate::region::in_grid;
use vstd::prelude::*;

verus! {

/// The number of values below `k` in `s`.
pub open spec fn weight(s: Set<u8>, k: nat) -> nat
    decreases k,
{
    if k == 0 {
        0
    } else {
        weight(s, (k - 1) as nat) + if s.contains((k - 1) as u8) {
            1nat
        } else {
            0nat
        }
    }
}

/// A filled cell weighs nothing; an empty cell one more than its candidates.
pub open spec fn cell_weight(c: CellView) -> nat {
    match c {
        CellView::Value(_) => 0,
        CellView::Notes(s) => weight(s, 256) + 1,
    }
}

/// The weight of the first `j` cells of row `r`.
pub open spec fn row_weight(b: Board, r: nat, j: nat) -> nat
    decreases j,
{
    if j == 0 {
        0
    } else {
        row_weight(b, r, (j - 1) as nat) + cell_weight(
            b.at(Coord { row: r as usize, col: (j - 1) as usize }),
        )
    }
}

/// The weight of the first `k` rows.
pub open spec fn grid_weight(b: Board, k: nat) -> nat
    decreases k,
{
    if k == 0 {
        0
    } else {
        grid_weight(b, (k - 1) as nat) + row_weight(b, (k - 1) as nat, b.n())
    }
}

/// A subset weighs no more; a subset that misses a member weighs less.
pub proof fn lemma_weight_subset(s: Set<u8>, t: Set<u8>, k: nat)
    requires
        s.subset_of(t),
        k <= 256,
    ensures
        weight(s, k) <= weight(t, k),
        (exists|x: u8| x < k && t.contains(x) && !s.contains(x)) ==> weight(s, k) < weight(t, k),
    decreases k,
{
    if k > 0 {
        lemma_weight_subset(s, t, (k - 1) as nat);
        if exists|x: u8| x < k && t.contains(x) && !s.contains(x) {
            let x = choose|x: u8| x < k && t.contains(x) && !s.contains(x);
            if x < k - 1 {
            } else {
                assert(x == (k - 1) as u8);
            }
        }
    }
}

impl Board {
    /// The total weight of the board: it falls whenever a cell is filled or a
    /// candidate is removed.
    pub open spec fn measure(&self) -> nat {
        grid_weight(*self, self.n())
    }

    /// Some cell empty in `self` holds a value in `other`.
    pub open spec fn fills_some(&self, other: Board) -> bool {
        exists|c: Coord| in_grid(self.n(), c) && #[trigger] self.at(c) is Notes && other.at(c) is Value
    }

    /// Every filled cell of `old` keeps its value, every cell filled since holds
    /// one of its former candidates, and every empty cell keeps a subset of its
    /// candidates; the shape is unchanged.
    pub open spec fn refines(&self, old: Board) -> bool {
        &&& self.size == old.size
        &&& self.kind == old.kind
        &&& forall|c: Coord|
            in_grid(self.n(), c) ==> match (#[trigger] old.at(c), self.at(c)) {
                (CellView::Value(v), x) => x == CellView::Value(v),
                (CellView::Notes(s0), CellView::Value(v)) => s0.contains(v),
                (CellView::Notes(s0), CellView::Notes(s)) => s.subset_of(s0),
            }
    }

    /// No candidate of an empty cell is the value of a related cell.
    pub open spec fn consistent(&self) -> bool {
        forall|a: Coord, b: Coord|
            #![trigger self.at(a), self.at(b)]
            self.related(a, b) && self.at(a) is Notes && self.at(b) is Value ==> !self.at(a)->Notes_0.contains(
                self.at(b)->Value_0,
            )
    }

    /// Every value is below the row length and no two related cells hold the
    /// same value.
    pub open spec fn no_conflict(&self) -> bool {
        &&& forall|c: Coord|
            in_grid(self.n(), c) && #[trigger] self.at(c) is Value ==> self.at(c)->Value_0 < self.n()
        &&& forall|a: Coord, b: Coord|
            #![trigger self.at(a), self.at(b)]
            self.related(a, b) && self.at(a) is Value && self.at(b) is Value ==> self.at(a)
                != self.at(b)
    }

    /// Every cell of the grid is filled.
    pub open spec fn solved(&self) -> bool {
        forall|c: Coord| in_grid(self.n(), c) ==> #[trigger] self.at(c) is Value
    }
}


impl Board {
    /// The content of `c` once `v` is written at `x` and removed from the
    /// notes of every cell related to `x`.
    pub open spec fn placed(&self, x: Coord, v: u8, c: Coord) -> CellView {
        if c == x {
            CellView::Value(v)
        } else if self.related(x, c) {
            strip(self.at(c), v)
        } else {
            self.at(c)
        }
    }

    /// `other` has the shape of `self`, and each of its cells holds the same
    /// content as in `self` or a subset of its candidates.
    pub open spec fn shrinks_to(&self, other: Board) -> bool {
        &&& other.size == self.size
        &&& other.kind == self.kind
        &&& forall|c: Coord|
            in_grid(self.n(), c) ==> #[trigger] other.at(c) == self.at(c) || (self.at(c) is Notes
                && other.at(c) is Notes && other.at(c)->Notes_0.subset_of(self.at(c)->Notes_0))
    }

    /// A solving step from `self` to `other`: the shape is kept, `other`
    /// refines `self`, and consistency and the absence of conflicts survive.
    pub open spec fn sound_step(&self, other: Board) -> bool {
        &&& other.wf()
        &&& other.refines(*self)
        &&& self.consistent() ==> other.consistent()
        &&& self.consistent() && self.no_conflict() ==> other.no_conflict()
    }

    /// Every candidate noted in an empty cell is below the row length.
    pub open spec fn notes_in_range(&self) -> bool {
        forall|c: Coord, v: u8|
            #![trigger self.at(c)->Notes_0.contains(v)]
            in_grid(self.n(), c) && self.at(c) is Notes && self.at(c)->Notes_0.contains(v) ==> v
                < self.n()
    }

    /// Every value of a filled cell is below the row length.
    pub open spec fn values_in_range(&self) -> bool {
        forall|c: Coord| in_grid(self.n(), c) && #[trigger] self.at(c) is Value ==> self.at(c)->Value_0 < self.n()
    }

    /// The cells of `self` and `other` hold the same contents.
    pub open spec fn same_cells(&self, other: Board) -> bool {
        forall|c: Coord| in_grid(self.n(), c) ==> #[trigger] other.at(c) == self.at(c)
    }
}

/// What [`Board::set_cell()`] writes, cell by cell.
pub proof fn lemma_after_set(b: Board, x: Coord, v: u8, c: Coord)
    requires
        in_grid(b.n(), c),
    ensures
        in_grid(b.n(), x) && v < b.n() ==> b.after_set(x, v, c) == b.placed(x, v, c),
        !in_grid(b.n(), x) ==> b.after_set(x, v, c) == b.at(c),
        in_grid(b.n(), x) && v >= b.n() ==> b.after_set(x, v, c) == b.at(c) || b.after_set(x, v, c)
            == strip(b.at(c), v),
{
    lemma_strip_idem(b.at(c), v);
}

/// Removing candidates weighs no more.
pub proof fn lemma_strip_weight(x: CellView, v: u8)
    ensures
        cell_weight(strip(x, v)) <= cell_weight(x),
{
    if let CellView::Notes(s) = x {
        lemma_weight_subset(s.remove(v), s, 256);
    }
}

/// Placing a value keeps the notes consistent, weighs no more (less when the
/// cell was empty), and keeps the board free of conflicts when no related
/// cell already holds the value.
pub proof fn lemma_place(b: Board, b2: Board, x: Coord, v: u8)
    requires
        b2.size == b.size,
        b2.kind == b.kind,
        in_grid(b.n(), x),
        v < b.n(),
        forall|c: Coord| in_grid(b.n(), c) ==> #[trigger] b2.at(c) == b.placed(x, v, c),
    ensures
        b.consistent() ==> b2.consistent(),
        b.no_conflict() && (forall|y: Coord| #[trigger] b.related(x, y) ==> b.at(y) != CellView::Value(v))
            ==> b2.no_conflict(),
        forall|c: Coord| in_grid(b.n(), c) ==> cell_weight(#[trigger] b2.at(c)) <= cell_weight(b.at(c)),
        b2.measure() <= b.measure(),
        b.at(x) is Notes ==> b2.measure() < b.measure(),
        b.notes_in_range() ==> b2.notes_in_range(),
{
    let n = b.n();
    if b.notes_in_range() {
        assert forall|c: Coord, w: u8|
            #![trigger b2.at(c)->Notes_0.contains(w)]
            in_grid(n, c) && b2.at(c) is Notes && b2.at(c)->Notes_0.contains(w) implies w < n by {
            assert(b.at(c) is Notes);
        }
    }
    assert forall|c: Coord| in_grid(n, c) implies cell_weight(#[trigger] b2.at(c)) <= cell_weight(b.at(c)) by {
        lemma_strip_weight(b.at(c), v);
    }
    lemma_measure(b, b2);
    if b.at(x) is Notes {
        assert(cell_weight(b2.at(x)) < cell_weight(b.at(x)));
    }
    if b.consistent() {
        assert forall|a: Coord, y: Coord|
            #![trigger b2.at(a), b2.at(y)]
            b2.related(a, y) && b2.at(a) is Notes && b2.at(y) is Value implies !b2.at(a)->Notes_0.contains(
                b2.at(y)->Value_0,
            ) by {
            if y == x {
                assert(b.related(x, a));
            } else {
                assert(b.at(y) == b2.at(y));
                assert(b.related(a, y));
                assert(b.at(a) is Notes);
            }
        }
    }
    if b.no_conflict() && (forall|y: Coord| #[trigger] b.related(x, y) ==> b.at(y) != CellView::Value(v)) {
        assert forall|a: Coord, y: Coord|
            #![trigger b2.at(a), b2.at(y)]
            b2.related(a, y) && b2.at(a) is Value && b2.at(y) is Value implies b2.at(a) != b2.at(y) by {
            if a == x {
                assert(b.related(x, y));
            } else if y == x {
                assert(b.related(x, a));
            } else {
                assert(b.at(a) == b2.at(a));
                assert(b.at(y) == b2.at(y));
            }
        }
        assert forall|c: Coord| in_grid(n, c) && #[trigger] b2.at(c) is Value implies b2.at(c)->Value_0 < n by {
            if c != x {
                assert(b.at(c) == b2.at(c));
            }
        }
    }
}

/// Placing one of the candidates that `m` noted at `x` keeps refining `m`.
pub proof fn lemma_place_refines(m: Board, b: Board, b2: Board, x: Coord, v: u8)
    requires
        b.refines(m),
        b2.size == b.size,
        b2.kind == b.kind,
        in_grid(b.n(), x),
        m.at(x) is Notes,
        m.at(x)->Notes_0.contains(v),
        forall|c: Coord| in_grid(b.n(), c) ==> #[trigger] b2.at(c) == b.placed(x, v, c),
    ensures
        b2.refines(m),
{
    assert forall|c: Coord| in_grid(b2.n(), c) implies match (#[trigger] m.at(c), b2.at(c)) {
        (CellView::Value(w), y) => y == CellView::Value(w),
        (CellView::Notes(s0), CellView::Value(w)) => s0.contains(w),
        (CellView::Notes(s0), CellView::Notes(s)) => s.subset_of(s0),
    } by {
        assert(match (m.at(c), b.at(c)) {
            (CellView::Value(w), y) => y == CellView::Value(w),
            (CellView::Notes(s0), CellView::Value(w)) => s0.contains(w),
            (CellView::Notes(s0), CellView::Notes(s)) => s.subset_of(s0),
        });
    }
}

/// Shrinking notes is a sound step that weighs no more; it weighs less when a
/// cell changed.
pub proof fn lemma_shrink(b: Board, b2: Board)
    requires
        b.wf(),
        b.shrinks_to(b2),
    ensures
        b2.refines(b),
        b.consistent() ==> b2.consistent(),
        b.no_conflict() ==> b2.no_conflict(),
        b2.measure() <= b.measure(),
        !b.same_cells(b2) ==> b2.measure() < b.measure(),
        b.notes_in_range() ==> b2.notes_in_range(),
{
    let n = b.n();
    if b.notes_in_range() {
        assert forall|c: Coord, w: u8|
            #![trigger b2.at(c)->Notes_0.contains(w)]
            in_grid(n, c) && b2.at(c) is Notes && b2.at(c)->Notes_0.contains(w) implies w < n by {
            assert(b.at(c) is Notes);
        }
    }
    assert forall|c: Coord| in_grid(n, c) implies cell_weight(#[trigger] b2.at(c)) <= cell_weight(b.at(c)) by {
        if b2.at(c) != b.at(c) {
            lemma_weight_subset(b2.at(c)->Notes_0, b.at(c)->Notes_0, 256);
        }
    }
    lemma_measure(b, b2);
    if !b.same_cells(b2) {
        let c = choose|c: Coord| in_grid(n, c) && #[trigger] b2.at(c) != b.at(c);
        let s = b2.at(c)->Notes_0;
        let t = b.at(c)->Notes_0;
        assert(s != t);
        assert(!(s =~= t));
        let z = choose|z: u8| t.contains(z) != s.contains(z);
        lemma_weight_subset(s, t, 256);
        assert(cell_weight(b2.at(c)) < cell_weight(b.at(c)));
    }
    assert forall|c: Coord| in_grid(b2.n(), c) implies match (#[trigger] b.at(c), b2.at(c)) {
        (CellView::Value(w), y) => y == CellView::Value(w),
        (CellView::Notes(s0), CellView::Value(w)) => s0.contains(w),
        (CellView::Notes(s0), CellView::Notes(s)) => s.subset_of(s0),
    } by {
    }
}


/// A refinement of a board whose candidates and values are in range keeps its
/// values in range.
pub proof fn lemma_refines_in_range(old: Board, new: Board)
    requires
        new.refines(old),
        old.notes_in_range(),
        old.values_in_range(),
    ensures
        new.values_in_range(),
{
    assert forall|c: Coord| in_grid(new.n(), c) && #[trigger] new.at(c) is Value implies new.at(c)->Value_0 < new.n() by {
        assert(match (old.at(c), new.at(c)) {
            (CellView::Value(w), y) => y == CellView::Value(w),
            (CellView::Notes(s0), CellView::Value(w)) => s0.contains(w),
            (CellView::Notes(s0), CellView::Notes(s)) => s.subset_of(s0),
        });
        if old.at(c) is Notes {
            assert(old.at(c)->Notes_0.contains(new.at(c)->Value_0));
        }
    }
}

/// Clearing a cell keeps candidates and values in range.
pub proof fn lemma_clear_in_range(b: Board, b2: Board, coord: Coord)
    requires
        b2.size == b.size,
        forall|c: Coord| in_grid(b.n(), c) ==> #[trigger] b2.at(c) == b.after_clear(coord, c),
        b.notes_in_range(),
        b.values_in_range(),
    ensures
        b2.notes_in_range(),
        b2.values_in_range(),
{
    let n = b.n();
    assert forall|c: Coord, v: u8|
        #![trigger b2.at(c)->Notes_0.contains(v)]
        in_grid(n, c) && b2.at(c) is Notes && b2.at(c)->Notes_0.contains(v) implies v < n by {
        if in_grid(n, coord) && b.at(coord) is Value && c != coord && b.related(coord, c) {
            assert(b.at(coord)->Value_0 < n);
        }
    }
    assert forall|c: Coord| in_grid(n, c) && #[trigger] b2.at(c) is Value implies b2.at(c)->Value_0 < n by {
        if in_grid(n, coord) && b.at(coord) is Value && c != coord && b.related(coord, c) {
            assert(b.at(c) is Value);
        }
    }
}

/// Refinement is transitive.
pub proof fn lemma_refines_trans(a: Board, b: Board, c: Board)
    requires
        b.refines(a),
        c.refines(b),
    ensures
        c.refines(a),
{
    assert forall|x: Coord| in_grid(c.n(), x) implies match (#[trigger] a.at(x), c.at(x)) {
        (CellView::Value(v), y) => y == CellView::Value(v),
        (CellView::Notes(s0), CellView::Value(v)) => s0.contains(v),
        (CellView::Notes(s0), CellView::Notes(s)) => s.subset_of(s0),
    } by {
        assert(match (a.at(x), b.at(x)) {
            (CellView::Value(v), y) => y == CellView::Value(v),
            (CellView::Notes(s0), CellView::Value(v)) => s0.contains(v),
            (CellView::Notes(s0), CellView::Notes(s)) => s.subset_of(s0),
        });
        assert(match (b.at(x), c.at(x)) {
            (CellView::Value(v), y) => y == CellView::Value(v),
            (CellView::Notes(s0), CellView::Value(v)) => s0.contains(v),
            (CellView::Notes(s0), CellView::Notes(s)) => s.subset_of(s0),
        });
    }
}

/// Every board refines itself.
pub proof fn lemma_refines_refl(a: Board)
    ensures
        a.refines(a),
{
    assert forall|x: Coord| in_grid(a.n(), x) implies match (#[trigger] a.at(x), a.at(x)) {
        (CellView::Value(v), y) => y == CellView::Value(v),
        (CellView::Notes(s0), CellView::Value(v)) => s0.contains(v),
        (CellView::Notes(s0), CellView::Notes(s)) => s.subset_of(s0),
    } by {
    }
}

/// Row sums respect pointwise bounds.
proof fn lemma_row_weight(a: Board, b: Board, r: nat, j: nat)
    requires
        a.n() == b.n(),
        j <= a.n(),
        r < a.n(),
        forall|c: Coord| in_grid(a.n(), c) ==> cell_weight(#[trigger] b.at(c)) <= cell_weight(a.at(c)),
    ensures
        row_weight(b, r, j) <= row_weight(a, r, j),
        (exists|c: Coord| in_grid(a.n(), c) && c.row == r && c.col < j && cell_weight(#[trigger] b.at(c)) < cell_weight(a.at(c)))
            ==> row_weight(b, r, j) < row_weight(a, r, j),
    decreases j,
{
    if j > 0 {
        lemma_row_weight(a, b, r, (j - 1) as nat);
        let c = Coord { row: r as usize, col: (j - 1) as usize };
        assert(cell_weight(b.at(c)) <= cell_weight(a.at(c)));
        if exists|d: Coord| in_grid(a.n(), d) && d.row == r && d.col < j && cell_weight(#[trigger] b.at(d)) < cell_weight(a.at(d)) {
            let d = choose|d: Coord| in_grid(a.n(), d) && d.row == r && d.col < j && cell_weight(#[trigger] b.at(d)) < cell_weight(a.at(d));
            if d.col < j - 1 {
            } else {
                assert(d == c);
            }
        }
    }
}

/// Grid sums respect pointwise bounds.
proof fn lemma_grid_weight(a: Board, b: Board, k: nat)
    requires
        a.n() == b.n(),
        k <= a.n(),
        forall|c: Coord| in_grid(a.n(), c) ==> cell_weight(#[trigger] b.at(c)) <= cell_weight(a.at(c)),
    ensures
        grid_weight(b, k) <= grid_weight(a, k),
        (exists|c: Coord| in_grid(a.n(), c) && c.row < k && cell_weight(#[trigger] b.at(c)) < cell_weight(a.at(c)))
            ==> grid_weight(b, k) < grid_weight(a, k),
    decreases k,
{
    if k > 0 {
        lemma_grid_weight(a, b, (k - 1) as nat);
        lemma_row_weight(a, b, (k - 1) as nat, a.n());
        if exists|d: Coord| in_grid(a.n(), d) && d.row < k && cell_weight(#[trigger] b.at(d)) < cell_weight(a.at(d)) {
            let d = choose|d: Coord| in_grid(a.n(), d) && d.row < k && cell_weight(#[trigger] b.at(d)) < cell_weight(a.at(d));
            if d.row < k - 1 {
            } else {
                assert(in_grid(a.n(), d) && d.row == k - 1 && d.col < a.n() && cell_weight(b.at(d)) < cell_weight(a.at(d)));
            }
        }
    }
}

/// A pointwise lighter board has a smaller measure; strictly so when one cell
/// is strictly lighter.
pub proof fn lemma_measure(a: Board, b: Board)
    requires
        a.n() == b.n(),
        forall|c: Coord| in_grid(a.n(), c) ==> cell_weight(#[trigger] b.at(c)) <= cell_weight(a.at(c)),
    ensures
        b.measure() <= a.measure(),
        (exists|c: Coord| in_grid(a.n(), c) && cell_weight(#[trigger] b.at(c)) < cell_weight(a.at(c)))
            ==> b.measure() < a.measure(),
{
    lemma_grid_weight(a, b, a.n());
}

/// A refinement weighs no more.
pub proof fn lemma_refines_measure(b: Board, b2: Board)
    requires
        b2.refines(b),
    ensures
        b2.measure() <= b.measure(),
{
    assert forall|c: Coord| in_grid(b.n(), c) implies cell_weight(#[trigger] b2.at(c)) <= cell_weight(b.at(c)) by {
        if b.at(c) is Notes && b2.at(c) is Notes {
            lemma_weight_subset(b2.at(c)->Notes_0, b.at(c)->Notes_0, 256);
        }
    }
    lemma_measure(b, b2);
}

/// Shrinking composes.
pub proof fn lemma_shrinks_trans(a: Board, b: Board, c: Board)
    requires
        a.shrinks_to(b),
        b.shrinks_to(c),
    ensures
        a.shrinks_to(c),
{
    assert forall|x: Coord| in_grid(a.n(), x) implies #[trigger] c.at(x) == a.at(x) || (a.at(x) is Notes
        && c.at(x) is Notes && c.at(x)->Notes_0.subset_of(a.at(x)->Notes_0)) by {
        assert(b.at(x) == a.at(x) || (a.at(x) is Notes && b.at(x) is Notes));
    }
}

/// Every board shrinks to itself.
pub proof fn lemma_shrinks_refl(a: Board)
    ensures
        a.shrinks_to(a),
{
}

/// Along two refinements, a cell empty at the start is filled at the end
/// exactly when one of the steps filled it.
pub proof fn lemma_fills_trans(a: Board, b: Board, c: Board)
    requires
        b.refines(a),
        c.refines(b),
    ensures
        a.fills_some(c) == (a.fills_some(b) || b.fills_some(c)),
{
    if a.fills_some(c) {
        let x = choose|x: Coord| in_grid(a.n(), x) && #[trigger] a.at(x) is Notes && c.at(x) is Value;
        if b.at(x) is Notes {
            assert(b.fills_some(c));
        } else {
            assert(a.fills_some(b));
        }
    }
    if a.fills_some(b) {
        let x = choose|x: Coord| in_grid(a.n(), x) && #[trigger] a.at(x) is Notes && b.at(x) is Value;
        assert(c.at(x) is Value);
        assert(a.fills_some(c));
    }
    if b.fills_some(c) {
        let x = choose|x: Coord| in_grid(b.n(), x) && #[trigger] b.at(x) is Notes && c.at(x) is Value;
        assert(a.at(x) is Notes);
        assert(a.fills_some(c));
    }
}

/// A refinement that fills no cell only shrinks notes.
pub proof fn lemma_no_fill_shrinks(a: Board, b: Board)
    requires
        b.refines(a),
        !a.fills_some(b),
    ensures
        a.shrinks_to(b),
{
    assert forall|x: Coord| in_grid(a.n(), x) implies #[trigger] b.at(x) == a.at(x) || (a.at(x) is Notes
        && b.at(x) is Notes && b.at(x)->Notes_0.subset_of(a.at(x)->Notes_0)) by {
        if a.at(x) is Notes && b.at(x) is Value {
            assert(a.fills_some(b));
        }
    }
}

} // verus!
