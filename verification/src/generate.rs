//! Seeding a board with random values and generating completed boards.
use rand::seq::SliceRandom;
use crate::board::Board;
use crate::completion::lemma_seeded_solvable;
use crate::cell::{CellView, Coord};
use crate::region::in_grid;
use vstd::prelude::*;

verus! {

/// Shuffles `v` in place with `rand::seq::SliceRandom::shuffle`, drawing from
/// the thread-local generator `rand::rng()`.
///
/// The contract claims only that the result holds the same elements, each as
/// often as before (the shuffle swaps elements); the order is left unsaid.
#[verifier::external_body]
pub(crate) fn shuffle<T>(v: &mut Vec<T>)
    ensures
        final(v)@.to_multiset() == old(v)@.to_multiset(),
{
    v.shuffle(&mut rand::rng());
}

/// The values `0..n` in increasing order.
pub open spec fn upto(n: nat) -> Seq<u8> {
    Seq::new(n, |i: int| i as u8)
}

/// `p` holds the values `0..n`, each once, in some order.
pub open spec fn is_permutation(p: Seq<u8>, n: nat) -> bool {
    p.to_multiset() == upto(n).to_multiset()
}

/// Two sequences with the same multiset have the same length and elements,
/// and one has no duplicates when the other has none.
pub proof fn lemma_same_multiset<A>(p: Seq<A>, q: Seq<A>)
    requires
        p.to_multiset() == q.to_multiset(),
        q.no_duplicates(),
    ensures
        p.len() == q.len(),
        p.no_duplicates(),
        forall|x: A| #[trigger] p.contains(x) <==> q.contains(x),
{
    broadcast use vstd::seq_lib::group_to_multiset_ensures;
    q.lemma_multiset_has_no_duplicates();
    assert(p.len() == p.to_multiset().len());
    assert(q.len() == q.to_multiset().len());
    assert forall|x: A| p.to_multiset().contains(x) implies p.to_multiset().count(x) == 1 by {
    }
    p.lemma_multiset_has_no_duplicates_conv();
    assert forall|x: A| #[trigger] p.contains(x) <==> q.contains(x) by {
        assert(p.contains(x) <==> p.to_multiset().count(x) > 0);
        assert(q.contains(x) <==> q.to_multiset().count(x) > 0);
    }
}

/// A permutation of `0..n` lists each of those values once.
pub proof fn lemma_permutation(p: Seq<u8>, n: nat)
    requires
        n <= 256,
        is_permutation(p, n),
    ensures
        p.len() == n,
        p.no_duplicates(),
        forall|i: int| 0 <= i < n ==> #[trigger] p[i] < n,
        forall|v: u8| v < n ==> #[trigger] p.contains(v),
{
    let q = upto(n);
    broadcast use vstd::seq_lib::group_to_multiset_ensures;
    assert(q.no_duplicates());
    q.lemma_multiset_has_no_duplicates();
    assert(p.len() == p.to_multiset().len());
    assert(q.len() == q.to_multiset().len());
    assert forall|x: u8| p.to_multiset().contains(x) implies p.to_multiset().count(x) == 1 by {
    }
    p.lemma_multiset_has_no_duplicates_conv();
    assert forall|i: int| 0 <= i < n implies #[trigger] p[i] < n by {
        assert(p.contains(p[i]));
        assert(p.to_multiset().count(p[i]) > 0);
        assert(q.contains(p[i]));
    }
    assert forall|v: u8| v < n implies #[trigger] p.contains(v) by {
        assert(q[v as int] == v);
        assert(q.contains(v));
        assert(q.to_multiset().count(v) > 0);
    }
}

/// The cells of the region holding the first cell: that cell, then its
/// siblings in row-major order.
pub open spec fn first_region(b: Board) -> Seq<Coord> {
    seq![Coord { row: 0, col: 0 }] + b.kind.sibling_seq(b.size, Coord { row: 0, col: 0 })
}

/// The values among the first `k` of `p` written at a cell of `cells` that
/// shares a row or a column with `c`.
pub open spec fn seen_in_lines(cells: Seq<Coord>, p: Seq<u8>, k: int, c: Coord) -> Set<u8> {
    Set::new(
        |v: u8|
            exists|i: int|
                0 <= i < k && p[i] == v && (#[trigger] cells[i].row == c.row || cells[i].col == c.col),
    )
}

/// `cell` without the candidates in `s` (a filled cell is unchanged).
pub open spec fn strip_set(cell: CellView, s: Set<u8>) -> CellView {
    match cell {
        CellView::Notes(x) => CellView::Notes(x.difference(s)),
        CellView::Value(v) => CellView::Value(v),
    }
}

/// The content of `c` once `p[i]` is written at `cells[i]` for every `i < k`
/// and removed from the notes of the rows and columns of those cells.
pub open spec fn seeded_at(b: Board, cells: Seq<Coord>, p: Seq<u8>, k: int, c: Coord) -> CellView {
    if cells.take(k).contains(c) {
        CellView::Value(p[cells.index_of(c)])
    } else {
        strip_set(b.at(c), seen_in_lines(cells, p, k, c))
    }
}

impl Board {
    /// Every cell of the grid is empty.
    pub open spec fn blank(&self) -> bool {
        forall|c: Coord| in_grid(self.n(), c) ==> #[trigger] self.at(c) is Notes
    }

    /// Write `values[0]` in the first cell and `values[i + 1]` in its `i`-th
    /// sibling, updating the notes of their rows and columns only.
    ///
    /// On a blank board with distinct values, the result is consistent, free
    /// of conflicts, and its first region is filled.
    pub fn seed_with(&mut self, values: &Vec<u8>)
        requires
            old(self).wf(),
            values@.len() == old(self).n(),
            forall|i: int| 0 <= i < values@.len() ==> #[trigger] values@[i] < old(self).n(),
        ensures
            final(self).wf(),
            final(self).size == old(self).size,
            final(self).kind == old(self).kind,
            forall|c: Coord|
                in_grid(old(self).n(), c) ==> #[trigger] final(self).at(c) == seeded_at(
                    *old(self),
                    first_region(*old(self)),
                    values@,
                    old(self).n() as int,
                    c,
                ),
            forall|k: int| 0 <= k < old(self).n() ==> #[trigger] final(self).at(first_region(*old(self))[k]) == CellView::Value(values@[k]),
            old(self).notes_in_range() ==> final(self).notes_in_range(),
            old(self).blank() && values@.no_duplicates() ==> {
                &&& final(self).consistent()
                &&& final(self).no_conflict()
                &&& final(self).has_value()
            },
    {
        let ghost b = *self;
        let ghost n = b.n();
        let origin = Coord { row: 0, col: 0 };
        let siblings = self.kind.siblings(&self.size, origin);
        let mut region: Vec<Coord> = Vec::new();
        region.push(origin);
        let mut t: usize = 0;
        while t < siblings.len()
            invariant
                0 <= t <= siblings.len(),
                region@ == seq![origin] + siblings@.take(t as int),
            decreases siblings.len() - t,
        {
            region.push(siblings[t]);
            t += 1;
            assert(region@ == seq![origin] + siblings@.take(t as int));
        }
        assert(siblings@.take(siblings@.len() as int) == siblings@);
        let ghost cells = region@;
        proof {
            b.kind.lemma_balanced(b.size);
            b.kind.lemma_sibling_seq(b.size, origin);
            assert(cells == first_region(b));
            assert(cells.len() == n);
            assert forall|i: int, j: int| 0 <= i < j < cells.len() implies cells[i] != cells[j] by {
                if i == 0 {
                    assert(b.kind.sibling_seq(b.size, origin).contains(cells[j]));
                } else {
                    assert(cells[i] == b.kind.sibling_seq(b.size, origin)[i - 1]);
                    assert(cells[j] == b.kind.sibling_seq(b.size, origin)[j - 1]);
                }
            }
            assert forall|i: int| 0 <= i < cells.len() implies in_grid(n, #[trigger] cells[i]) && b.kind.region_at(b.size, cells[i]) == b.kind.region_at(b.size, origin) by {
                if i > 0 {
                    assert(b.kind.sibling_seq(b.size, origin).contains(cells[i]));
                }
            }
            assert forall|c: Coord| in_grid(n, c) implies #[trigger] b.at(c) == seeded_at(b, cells, values@, 0, c) by {
                assert(cells.take(0) =~= Seq::<Coord>::empty());
                if let CellView::Notes(x) = b.at(c) {
                    assert(x.difference(seen_in_lines(cells, values@, 0, c)) =~= x);
                }
            }
        }
        let mut k: usize = 0;
        while k < region.len()
            invariant
                b.wf(),
                n == b.n(),
                cells == region@,
                cells.len() == n,
                cells.no_duplicates(),
                forall|i: int| 0 <= i < cells.len() ==> in_grid(n, #[trigger] cells[i]),
                values@.len() == n,
                forall|i: int| 0 <= i < values@.len() ==> #[trigger] values@[i] < n,
                0 <= k <= n,
                self.wf(),
                self.size == b.size,
                self.kind == b.kind,
                forall|c: Coord| in_grid(n, c) ==> #[trigger] self.at(c) == seeded_at(b, cells, values@, k as int, c),
            decreases n - k,
        {
            let ghost before = *self;
            let coord = region[k];
            let value = values[k];
            self.set_cell_unchecked_grid(coord, value);
            proof {
                assert(in_grid(n, coord));
                assert(cells.take(k + 1) == cells.take(k as int).push(coord));
                assert forall|c: Coord| in_grid(n, c) implies #[trigger] self.at(c) == seeded_at(b, cells, values@, k + 1, c) by {
                    assert(before.at(c) == seeded_at(b, cells, values@, k as int, c));
                    if c == coord {
                        assert(cells.take(k + 1)[k as int] == coord);
                        assert(cells.take(k + 1).contains(c));
                        assert(cells.index_of(c) == k) by {
                            let j = cells.index_of(c);
                            assert(cells.contains(c)) by {
                                assert(cells[k as int] == c);
                            }
                        }
                    } else if cells.take(k as int).contains(c) {
                        let q = choose|q: int| 0 <= q < k && cells.take(k as int)[q] == c;
                        assert(cells.take(k + 1)[q] == c);
                        assert(cells.take(k + 1).contains(c));
                    } else {
                        assert(!cells.take(k + 1).contains(c));
                        let s0 = seen_in_lines(cells, values@, k as int, c);
                        let s1 = seen_in_lines(cells, values@, k + 1, c);
                        if c.row == coord.row || c.col == coord.col {
                            assert(s1 =~= s0.insert(value)) by {
                                assert(cells[k as int] == coord);
                            }
                            if let CellView::Notes(x) = b.at(c) {
                                assert(x.difference(s0).remove(value) =~= x.difference(s1));
                            }
                        } else {
                            assert(s1 =~= s0);
                        }
                    }
                }
            }
            k += 1;
        }
        proof {
            assert forall|k: int| 0 <= k < n implies #[trigger] self.at(first_region(b)[k]) == CellView::Value(values@[k]) by {
                let c = cells[k];
                assert(cells.take(n as int) == cells);
                assert(cells.contains(c));
                let j = cells.index_of(c);
                assert(cells[j] == c);
            }
            assert forall|c: Coord, v: u8|
                #![trigger self.at(c)->Notes_0.contains(v)]
                b.notes_in_range() && in_grid(n, c) && self.at(c) is Notes && self.at(c)->Notes_0.contains(v) implies v < n by {
                assert(b.at(c) is Notes);
            }
            if b.blank() && values@.no_duplicates() {
                assert(self.at(first_region(b)[0]) is Value);
                assert(cells.take(n as int) == cells);
                assert forall|c: Coord| in_grid(n, c) && #[trigger] self.at(c) is Value implies cells.contains(c)
                    && self.at(c) == CellView::Value(values@[cells.index_of(c)]) by {
                }
                assert forall|a: Coord, d: Coord|
                    #![trigger self.at(a), self.at(d)]
                    self.related(a, d) && self.at(a) is Notes && self.at(d) is Value implies !self.at(a)->Notes_0.contains(
                        self.at(d)->Value_0,
                    ) by {
                    let j = cells.index_of(d);
                    assert(cells[j] == d);
                    assert(!cells.contains(a));
                    if a.row != d.row && a.col != d.col {
                        assert(b.kind.region_at(b.size, d) == b.kind.region_at(b.size, origin));
                        if b.kind.region_at(b.size, a) == b.kind.region_at(b.size, origin) {
                            if a != origin {
                                b.kind.lemma_sibling_seq(b.size, origin);
                                assert(b.kind.sibling_seq(b.size, origin).contains(a));
                                let q = choose|q: int| 0 <= q < b.kind.sibling_seq(b.size, origin).len() && b.kind.sibling_seq(b.size, origin)[q] == a;
                                assert(cells[q + 1] == a);
                            } else {
                                assert(cells[0] == a);
                            }
                        }
                    }
                    assert(seen_in_lines(cells, values@, n as int, a).contains(values@[j]));
                }
                assert forall|a: Coord, d: Coord|
                    #![trigger self.at(a), self.at(d)]
                    self.related(a, d) && self.at(a) is Value && self.at(d) is Value implies self.at(a) != self.at(d) by {
                    let i = cells.index_of(a);
                    let j = cells.index_of(d);
                    assert(cells[i] == a);
                    assert(cells[j] == d);
                }
            }
        }
    }
}

impl Board {
    /// Seed the board with some random valid values.
    ///
    /// This populates the board's first region (containing the
    /// first cell) with random, non-repeating values
    /// ranging from `0` (inclusive) up to
    /// [`crate::BoardSize::max_cells()`] (exclusive): the first cell gets the
    /// first value of a random permutation and its `i`-th sibling the value
    /// after that. Only the notes of the rows and columns of the filled cells
    /// are updated.
    pub fn seed(&mut self)
        requires
            old(self).wf(),
        ensures
            final(self).wf(),
            final(self).size == old(self).size,
            final(self).kind == old(self).kind,
            exists|p: Seq<u8>|
                #![trigger is_permutation(p, old(self).n())]
                is_permutation(p, old(self).n()) && forall|c: Coord|
                    in_grid(old(self).n(), c) ==> #[trigger] final(self).at(c) == seeded_at(
                        *old(self),
                        first_region(*old(self)),
                        p,
                        old(self).n() as int,
                        c,
                    ),
            old(self).notes_in_range() ==> final(self).notes_in_range(),
            old(self).blank() ==> {
                &&& final(self).consistent()
                &&& final(self).no_conflict()
                &&& final(self).has_value()
            },
    {
        let max_cells = self.size.max_cells();
        let mut cells: Vec<u8> = Vec::new();
        let mut v: u8 = 0;
        while v < max_cells
            invariant
                0 <= v <= max_cells,
                cells@ == upto(v as nat),
            decreases max_cells - v,
        {
            cells.push(v);
            v += 1;
            assert(cells@ =~= upto(v as nat));
        }
        shuffle(&mut cells);
        proof {
            lemma_permutation(cells@, self.n());
        }
        self.seed_with(&cells);
    }

    /// Generate a completed Sudoku puzzle.
    ///
    /// This is shorthand for calling [`Board::seed()`] followed by [`Board::solve()`].
    /// On a blank board, `true` means the board is solved without conflicts.
    /// A fresh board with regular regions is always completed.
    pub fn generate(&mut self) -> (r: bool)
        requires
            old(self).wf(),
            old(self).notes_in_range(),
        ensures
            final(self).wf(),
            final(self).size == old(self).size,
            final(self).kind == old(self).kind,
            final(self).notes_in_range(),
            r ==> final(self).solved(),
            r && old(self).blank() ==> final(self).no_conflict() && final(self).consistent(),
            old(self).fresh() && old(self).kind is Regular ==> r,
    {
        let ghost b = *self;
        self.seed();
        proof {
            if b.fresh() && b.kind is Regular {
                let p = choose|p: Seq<u8>|
                    #![trigger is_permutation(p, b.n())]
                    is_permutation(p, b.n()) && forall|c: Coord|
                        in_grid(b.n(), c) ==> #[trigger] self.at(c) == seeded_at(b, first_region(b), p, b.n() as int, c);
                lemma_seeded_solvable(b, *self, p);
            }
        }
        self.solve()
    }
}

} // verus!
