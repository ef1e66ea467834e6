//! Utilities for analyzing a single row or column
use std::collections::BTreeMap;
use crate::board::Board;
use crate::cell::{Cell, CellView, Coord};
use crate::region::in_grid;
use vstd::prelude::*;
use vstd::std_specs::iter::IteratorSpec;

verus! {

broadcast use {vstd::std_specs::hash::group_hash_axioms, vstd::std_specs::btree::group_btree_axioms};

/// A kind of line in the Sudoku board: either a row or a column.
#[derive(Debug, Clone, Copy, PartialEq, Eq, Structural)]
pub enum LineKind {
    /// A row at the given index.
    Row(usize),
    /// A column at the given index.
    Column(usize),
}

/// The cell holds the candidate `v`.
pub open spec fn holds(c: CellView, v: u8) -> bool {
    c is Notes && c->Notes_0.contains(v)
}

/// A hidden set of a line: its candidates (ascending) and the cells
/// (in walking order) that are the only ones holding them.
pub type SharedSet = (Vec<u8>, Vec<Coord>);

impl LineKind {
    /// The index of the row or column.
    pub open spec fn line_index(self) -> usize {
        match self {
            LineKind::Row(i) => i,
            LineKind::Column(i) => i,
        }
    }

    /// The `k`-th cell of the line, walking east along a row or south along a column.
    pub open spec fn cell(self, k: int) -> Coord {
        match self {
            LineKind::Row(i) => Coord { row: i, col: k as usize },
            LineKind::Column(i) => Coord { row: k as usize, col: i },
        }
    }

    /// The cells among the first `k` of the line that hold the candidate `v`,
    /// in walking order.
    pub open spec fn holders(self, b: Board, v: u8, k: nat) -> Seq<Coord>
        decreases k,
    {
        if k == 0 {
            Seq::empty()
        } else {
            let prev = self.holders(b, v, (k - 1) as nat);
            if holds(b.at(self.cell(k - 1)), v) {
                prev.push(self.cell(k - 1))
            } else {
                prev
            }
        }
    }

    /// The cells of the whole line that hold the candidate `v`.
    pub open spec fn coords_of(self, b: Board, v: u8) -> Seq<Coord> {
        self.holders(b, v, b.n())
    }

    /// The candidates below `k` held by exactly the same cells as `v`, ascending.
    pub open spec fn class_upto(self, b: Board, v: u8, k: nat) -> Seq<u8>
        decreases k,
    {
        if k == 0 {
            Seq::empty()
        } else {
            let prev = self.class_upto(b, v, (k - 1) as nat);
            if self.coords_of(b, (k - 1) as u8) == self.coords_of(b, v) {
                prev.push((k - 1) as u8)
            } else {
                prev
            }
        }
    }

    /// The candidates held by exactly the same cells as `v`, ascending.
    pub open spec fn class_of(self, b: Board, v: u8) -> Seq<u8> {
        self.class_upto(b, v, 256)
    }

    /// `v` is the smallest of a hidden set: more than one cell holds it, and
    /// as many candidates as cells are held by exactly those cells.
    pub open spec fn leads_set(self, b: Board, v: u8) -> bool {
        let cells = self.coords_of(b, v);
        let class = self.class_of(b, v);
        &&& cells.len() > 1
        &&& class.len() == cells.len()
        &&& class[0] == v
    }

    /// The hidden sets whose smallest candidate is below `k`, ordered by it.
    pub open spec fn sets_upto(self, b: Board, k: nat) -> Seq<(Seq<u8>, Seq<Coord>)>
        decreases k,
    {
        if k == 0 {
            Seq::empty()
        } else {
            let prev = self.sets_upto(b, (k - 1) as nat);
            let v = (k - 1) as u8;
            if self.leads_set(b, v) {
                prev.push((self.class_of(b, v), self.coords_of(b, v)))
            } else {
                prev
            }
        }
    }

    /// Every cell holding `v` among the first `k` is a cell of the line, and they come in walking order.
    pub proof fn lemma_holders(self, b: Board, v: u8, k: nat)
        requires
            k <= b.n(),
            self.line_index() < b.n(),
        ensures
            forall|i: int| 0 <= i < self.holders(b, v, k).len() ==> {
                &&& exists|j: int| 0 <= j < k && #[trigger] self.holders(b, v, k)[i] == self.cell(j)
                &&& in_grid(b.n(), self.holders(b, v, k)[i])
                &&& holds(b.at(self.holders(b, v, k)[i]), v)
            },
            forall|j: int| 0 <= j < k && holds(b.at(#[trigger] self.cell(j)), v) ==> self.holders(b, v, k).contains(self.cell(j)),
            self.holders(b, v, k).len() <= k,
            self.holders(b, v, k).no_duplicates(),
        decreases k,
    {
        if k > 0 {
            self.lemma_holders(b, v, (k - 1) as nat);
            let prev = self.holders(b, v, (k - 1) as nat);
            let c = self.cell(k - 1);
            assert(!prev.contains(c)) by {
                if prev.contains(c) {
                    let i = choose|i: int| 0 <= i < prev.len() && prev[i] == c;
                    let j = choose|j: int| 0 <= j < k - 1 && #[trigger] prev[i] == self.cell(j);
                    assert(self.cell(j) == self.cell(k - 1));
                }
            }
            if holds(b.at(c), v) {
                assert forall|i1: int, i2: int| 0 <= i1 < i2 < prev.push(c).len() implies prev.push(c)[i1] != prev.push(c)[i2] by {
                    if i2 == prev.len() {
                        assert(prev.contains(prev[i1]));
                    }
                }
            }
            assert forall|j: int| 0 <= j < k && holds(b.at(#[trigger] self.cell(j)), v) implies self.holders(b, v, k).contains(self.cell(j)) by {
                if j < k - 1 {
                    assert(prev.contains(self.cell(j)));
                    let i = choose|i: int| 0 <= i < prev.len() && prev[i] == self.cell(j);
                    assert(self.holders(b, v, k)[i] == self.cell(j));
                } else {
                    assert(self.holders(b, v, k)[prev.len() as int] == self.cell(j));
                }
            }
            assert forall|i: int| 0 <= i < self.holders(b, v, k).len() implies {
                &&& exists|j: int| 0 <= j < k && #[trigger] self.holders(b, v, k)[i] == self.cell(j)
                &&& in_grid(b.n(), self.holders(b, v, k)[i])
                &&& holds(b.at(self.holders(b, v, k)[i]), v)
            } by {
                if i < prev.len() {
                    assert(self.holders(b, v, k)[i] == prev[i]);
                } else {
                    assert(self.holders(b, v, k)[i] == self.cell(k - 1));
                }
            }
        }
    }

    /// The cells of the line that hold some candidate, bucket by bucket: the
    /// `v`-th bucket lists the cells holding `v`, in walking order.
    pub(crate) fn candidate_cells(&self, board: &Board) -> (r: Vec<Vec<Coord>>)
        requires
            board.wf(),
            self.line_index() < board.n(),
        ensures
            r@.len() == 256,
            forall|v: int| 0 <= v < 256 ==> (#[trigger] r@[v])@ == self.coords_of(*board, v as u8),
    {
        let max_cells = board.size.max_cells() as usize;
        let ghost n = board.n();
        let mut buckets: Vec<Vec<Coord>> = Vec::new();
        let mut v: usize = 0;
        while v < 256
            invariant
                0 <= v <= 256,
                buckets@.len() == v,
                forall|w: int| 0 <= w < v ==> (#[trigger] buckets@[w])@ == Seq::<Coord>::empty(),
            decreases 256 - v,
        {
            buckets.push(Vec::new());
            v += 1;
        }
        let mut k: usize = 0;
        while k < max_cells
            invariant
                board.wf(),
                max_cells == n,
                n == board.n(),
                self.line_index() < n,
                0 <= k <= n,
                buckets@.len() == 256,
                forall|w: int| 0 <= w < 256 ==> (#[trigger] buckets@[w])@ == self.holders(*board, w as u8, k as nat),
            decreases n - k,
        {
            let c = match self {
                LineKind::Row(i) => Coord { row: *i, col: k },
                LineKind::Column(i) => Coord { row: k, col: *i },
            };
            assert(c == self.cell(k as int));
            proof {
                board.lemma_view();
            }
            if let Cell::Notes(notes) = &board.grid[c.row][c.col] {
                let ghost keys = notes.iter().remaining().unref();
                let ghost before = buckets@;
                assert(board.at(c) == CellView::Notes(notes@));
                for x in it: notes.iter()
                    invariant
                        keys.to_set() == notes@,
                        keys.no_duplicates(),
                        it.seq().unref() == keys,
                        0 <= it.index() <= keys.len(),
                        buckets@.len() == 256,
                        forall|w: int| 0 <= w < 256 ==> (#[trigger] buckets@[w])@ == if keys.take(it.index() as int).contains(w as u8) {
                            before[w]@.push(c)
                        } else {
                            before[w]@
                        },
                {
                    let ghost i = it.index();
                    assert(*x == keys[i]);
                    let w = *x as usize;
                    let mut bucket: Vec<Coord> = Vec::new();
                    buckets.set_and_swap(w, &mut bucket);
                    bucket.push(c);
                    buckets.set(w, bucket);
                    proof {
                        assert(keys.take(i + 1) == keys.take(i).push(keys[i]));
                        assert forall|u: int| 0 <= u < 256 implies (#[trigger] buckets@[u])@ == if keys.take(i + 1).contains(u as u8) {
                            before[u]@.push(c)
                        } else {
                            before[u]@
                        } by {
                            if u == w {
                                assert(!keys.take(i).contains(keys[i])) by {
                                    if keys.take(i).contains(keys[i]) {
                                        let j = choose|j: int| 0 <= j < i && keys.take(i)[j] == keys[i];
                                        assert(keys[j] == keys[i]);
                                    }
                                }
                                assert(keys.take(i + 1)[i as int] == keys[i]);
                                assert((u as u8) == keys[i]);
                                assert(keys.take(i + 1).contains(u as u8));
                            } else {
                                assert(keys.take(i + 1).contains(u as u8) == keys.take(i).contains(u as u8));
                            }
                        }
                    }
                }
                proof {
                    assert(keys.take(keys.len() as int) == keys);
                    assert forall|w: int| 0 <= w < 256 implies (#[trigger] buckets@[w])@ == self.holders(*board, w as u8, (k + 1) as nat) by {
                        assert(keys.contains(w as u8) == notes@.contains(w as u8));
                    }
                }
            }
            k += 1;
        }
        buckets
    }

    /// Create a map of candidates to the coordinates that contain them.
    ///
    /// Coordinates are specific to the instantiated line (`self`) and listed
    /// in walking order (east along a row, south along a column).
    pub fn map_notes_to_coords(&self, board: &Board) -> (r: BTreeMap<u8, Vec<Coord>>)
        requires
            board.wf(),
            self.line_index() < board.n(),
        ensures
            forall|v: u8| #[trigger] r@.contains_key(v) <==> self.coords_of(*board, v).len() > 0,
            forall|v: u8| #[trigger] r@.contains_key(v) ==> r@[v]@ == self.coords_of(*board, v),
    {
        let mut buckets = self.candidate_cells(board);
        let mut map: BTreeMap<u8, Vec<Coord>> = BTreeMap::new();
        let ghost all = buckets@;
        while buckets.len() > 0
            invariant
                buckets@.len() <= 256,
                all.len() == 256,
                buckets@ == all.take(buckets@.len() as int),
                forall|v: int| 0 <= v < 256 ==> (#[trigger] all[v])@ == self.coords_of(*board, v as u8),
                forall|v: u8| #[trigger] map@.contains_key(v) <==> (v >= buckets@.len() && self.coords_of(*board, v).len() > 0),
                forall|v: u8| #[trigger] map@.contains_key(v) ==> map@[v]@ == self.coords_of(*board, v),
            decreases buckets.len(),
        {
            let ghost len = buckets@.len();
            let cells = buckets.pop().unwrap();
            let v = buckets.len() as u8;
            assert(cells == all[len - 1]);
            if cells.len() > 0 {
                map.insert(v, cells);
            }
            assert(buckets@ == all.take(buckets@.len() as int));
        }
        map
    }
}

/// `a` and `b` list the same cells.
fn coords_equal(a: &Vec<Coord>, b: &Vec<Coord>) -> (r: bool)
    ensures
        r == (a@ == b@),
{
    if a.len() != b.len() {
        return false;
    }
    let mut i: usize = 0;
    while i < a.len()
        invariant
            a@.len() == b@.len(),
            0 <= i <= a.len(),
            forall|k: int| 0 <= k < i ==> a@[k] == b@[k],
        decreases a.len() - i,
    {
        if a[i] != b[i] {
            return false;
        }
        i += 1;
    }
    assert(a@ =~= b@);
    true
}

/// A copy of a list of cells.
pub fn copy_coords(a: &Vec<Coord>) -> (r: Vec<Coord>)
    ensures
        r@ == a@,
{
    let mut r: Vec<Coord> = Vec::new();
    let mut i: usize = 0;
    while i < a.len()
        invariant
            0 <= i <= a.len(),
            r@ == a@.take(i as int),
        decreases a.len() - i,
    {
        r.push(a[i]);
        i += 1;
        assert(r@ == a@.take(i as int));
    }
    assert(a@.take(a@.len() as int) == a@);
    r
}

/// The views of a list of hidden sets.
pub open spec fn sets_view(r: Seq<SharedSet>) -> Seq<(Seq<u8>, Seq<Coord>)> {
    r.map_values(|p: SharedSet| (p.0@, p.1@))
}

impl LineKind {
    /// Find cells that share the same candidates (hidden sets).
    ///
    /// Returns, ordered by their smallest candidate, the sets of `k > 1`
    /// candidates (ascending) that are held by the same `k` cells of the line
    /// and by no other, with those cells in walking order. No two sets share
    /// a candidate, so each set of candidates is listed once.
    /// Coordinates are specific to the instantiated line (`self`).
    pub fn find_cells_with_shared_candidates(&self, board: &Board) -> (r: Vec<SharedSet>)
        requires
            board.wf(),
            self.line_index() < board.n(),
        ensures
            sets_view(r@) == self.sets_upto(*board, 256),
            forall|i: int, j: int| 0 <= i < j < r@.len() ==> #[trigger] r@[i].0@ != #[trigger] r@[j].0@,
    {
        let buckets = self.candidate_cells(board);
        let mut shared: Vec<SharedSet> = Vec::new();
        let mut v: usize = 0;
        while v < 256
            invariant
                0 <= v <= 256,
                buckets@.len() == 256,
                forall|w: int| 0 <= w < 256 ==> (#[trigger] buckets@[w])@ == self.coords_of(*board, w as u8),
                sets_view(shared@) == self.sets_upto(*board, v as nat),
            decreases 256 - v,
        {
            let cells = &buckets[v];
            let ghost vv = v as u8;
            if cells.len() > 1 {
                let mut class: Vec<u8> = Vec::new();
                let mut w: usize = 0;
                while w < 256
                    invariant
                        0 <= w <= 256,
                        v < 256,
                        vv == v as u8,
                        buckets@.len() == 256,
                        *cells == buckets@[v as int],
                        forall|u: int| 0 <= u < 256 ==> (#[trigger] buckets@[u])@ == self.coords_of(*board, u as u8),
                        class@ == self.class_upto(*board, vv, w as nat),
                    decreases 256 - w,
                {
                    if coords_equal(&buckets[w], cells) {
                        class.push(w as u8);
                    }
                    w += 1;
                }
                if class.len() == cells.len() && class[0] as usize == v {
                    let copy = copy_coords(cells);
                    shared.push((class, copy));
                }
            }
            proof {
                assert(sets_view(shared@) =~= self.sets_upto(*board, (v + 1) as nat));
            }
            v += 1;
        }
        proof {
            self.lemma_sets_disjoint(*board);
            let sets = self.sets_upto(*board, 256);
            assert forall|i: int, j: int| 0 <= i < j < shared@.len() implies #[trigger] shared@[i].0@ != #[trigger] shared@[j].0@ by {
                assert(sets[i] == (shared@[i].0@, shared@[i].1@));
                assert(sets[j] == (shared@[j].0@, shared@[j].1@));
                assert(sets[i].0.contains(sets[i].0[0]));
                if shared@[i].0@ == shared@[j].0@ {
                    assert(sets[j].0.contains(sets[i].0[0]));
                }
            }
        }
        shared
    }
}

impl LineKind {
    /// The class of a candidate depends only on the cells that hold it.
    pub proof fn lemma_class_same(self, b: Board, v1: u8, v2: u8, k: nat)
        requires
            self.coords_of(b, v1) == self.coords_of(b, v2),
        ensures
            self.class_upto(b, v1, k) == self.class_upto(b, v2, k),
        decreases k,
    {
        if k > 0 {
            self.lemma_class_same(b, v1, v2, (k - 1) as nat);
        }
    }

    /// The class below `k` is strictly increasing, below `k`, and made of the
    /// candidates held by the same cells; it holds `v` when `v < k`.
    pub proof fn lemma_class(self, b: Board, v: u8, k: nat)
        requires
            k <= 256,
        ensures
            forall|i: int| 0 <= i < self.class_upto(b, v, k).len() ==> (#[trigger] self.class_upto(b, v, k)[i]) < k
                && self.coords_of(b, self.class_upto(b, v, k)[i]) == self.coords_of(b, v),
            forall|i: int, j: int| 0 <= i < j < self.class_upto(b, v, k).len() ==> self.class_upto(b, v, k)[i]
                < self.class_upto(b, v, k)[j],
            forall|w: u8| w < k && self.coords_of(b, w) == self.coords_of(b, v) ==> #[trigger] self.class_upto(b, v, k).contains(w),
            self.class_upto(b, v, k).no_duplicates(),
        decreases k,
    {
        if k > 0 {
            self.lemma_class(b, v, (k - 1) as nat);
            let prev = self.class_upto(b, v, (k - 1) as nat);
            let cur = self.class_upto(b, v, k);
            assert forall|w: u8| w < k && self.coords_of(b, w) == self.coords_of(b, v) implies #[trigger] cur.contains(w) by {
                if w < k - 1 {
                    assert(prev.contains(w));
                    let i = choose|i: int| 0 <= i < prev.len() && prev[i] == w;
                    assert(cur[i] == w);
                } else {
                    assert(w == (k - 1) as u8);
                    assert(cur[prev.len() as int] == w);
                }
            }
        }
    }

    /// Each hidden set is led by its smallest candidate, the leaders increase,
    /// and each set is the class and the cells of its leader.
    pub proof fn lemma_sets(self, b: Board, k: nat)
        requires
            k <= 256,
        ensures
            forall|i: int| 0 <= i < self.sets_upto(b, k).len() ==> {
                let v = (#[trigger] self.sets_upto(b, k)[i]).0[0];
                &&& v < k
                &&& self.leads_set(b, v)
                &&& self.sets_upto(b, k)[i] == (self.class_of(b, v), self.coords_of(b, v))
            },
            forall|i: int, j: int| 0 <= i < j < self.sets_upto(b, k).len() ==> self.sets_upto(b, k)[i].0[0]
                < self.sets_upto(b, k)[j].0[0],
        decreases k,
    {
        if k > 0 {
            self.lemma_sets(b, (k - 1) as nat);
            let prev = self.sets_upto(b, (k - 1) as nat);
            let v = (k - 1) as u8;
            if self.leads_set(b, v) {
                let cur = self.sets_upto(b, k);
                assert(cur == prev.push((self.class_of(b, v), self.coords_of(b, v))));
                assert(cur[prev.len() as int].0[0] == v);
                assert forall|i: int| 0 <= i < cur.len() implies {
                    let w = (#[trigger] cur[i]).0[0];
                    &&& w < k
                    &&& self.leads_set(b, w)
                    &&& cur[i] == (self.class_of(b, w), self.coords_of(b, w))
                } by {
                    if i < prev.len() {
                        assert(cur[i] == prev[i]);
                    }
                }
                assert forall|i: int, j: int| 0 <= i < j < cur.len() implies cur[i].0[0] < cur[j].0[0] by {
                    assert(cur[i] == prev[i]);
                    if j < prev.len() {
                        assert(cur[j] == prev[j]);
                    }
                }
            }
        }
    }

    /// Two hidden sets of a line share no candidate, and every candidate of a
    /// set is held by exactly the cells of the set.
    pub proof fn lemma_sets_disjoint(self, b: Board)
        ensures
            forall|i: int, w: u8|
                0 <= i < self.sets_upto(b, 256).len() && #[trigger] self.sets_upto(b, 256)[i].0.contains(w)
                    ==> self.coords_of(b, w) == self.sets_upto(b, 256)[i].1,
            forall|i: int, j: int, w: u8|
                #![trigger self.sets_upto(b, 256)[i].0.contains(w), self.sets_upto(b, 256)[j].0.contains(w)]
                0 <= i < j < self.sets_upto(b, 256).len() && self.sets_upto(b, 256)[i].0.contains(w)
                    ==> !self.sets_upto(b, 256)[j].0.contains(w),
            forall|i: int| 0 <= i < self.sets_upto(b, 256).len() ==> {
                &&& (#[trigger] self.sets_upto(b, 256)[i]).0.no_duplicates()
                &&& self.sets_upto(b, 256)[i].0.len() == self.sets_upto(b, 256)[i].1.len()
                &&& self.sets_upto(b, 256)[i].1.len() > 1
            },
    {
        let sets = self.sets_upto(b, 256);
        self.lemma_sets(b, 256);
        assert forall|i: int, w: u8| 0 <= i < sets.len() && #[trigger] sets[i].0.contains(w) implies self.coords_of(b, w)
            == sets[i].1 by {
            let v = sets[i].0[0];
            self.lemma_class(b, v, 256);
            let t = choose|t: int| 0 <= t < sets[i].0.len() && sets[i].0[t] == w;
        }
        assert forall|i: int, j: int, w: u8|
            #![trigger sets[i].0.contains(w), sets[j].0.contains(w)]
            0 <= i < j < sets.len() && sets[i].0.contains(w) implies !sets[j].0.contains(w) by {
            let vi = sets[i].0[0];
            let vj = sets[j].0[0];
            self.lemma_class(b, vi, 256);
            self.lemma_class(b, vj, 256);
            if sets[j].0.contains(w) {
                let t = choose|t: int| 0 <= t < sets[i].0.len() && sets[i].0[t] == w;
                let u = choose|u: int| 0 <= u < sets[j].0.len() && sets[j].0[u] == w;
                assert(self.coords_of(b, vi) == self.coords_of(b, vj));
                self.lemma_class_same(b, vi, vj, 256);
            }
        }
        assert forall|i: int| 0 <= i < sets.len() implies {
            &&& (#[trigger] sets[i]).0.no_duplicates()
            &&& sets[i].0.len() == sets[i].1.len()
            &&& sets[i].1.len() > 1
        } by {
            let v = sets[i].0[0];
            self.lemma_class(b, v, 256);
        }
    }
}

} // verus!
