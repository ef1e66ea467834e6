//! The candidates of one region and the cells that hold them.
use crate::board::Board;
use crate::cell::{Cell, CellView, Coord};
use crate::lines::{copy_coords, holds};
use crate::board::vec_has;
use crate::region::in_grid;
use vstd::prelude::*;
use vstd::std_specs::iter::IteratorSpec;

verus! {

broadcast use vstd::std_specs::hash::group_hash_axioms;

/// The cells among the first `k` of `cells` that hold the candidate `v`, in order.
pub open spec fn holders_in(b: Board, cells: Seq<Coord>, v: u8, k: nat) -> Seq<Coord>
    decreases k,
{
    if k == 0 {
        Seq::empty()
    } else {
        let prev = holders_in(b, cells, v, (k - 1) as nat);
        if holds(b.at(cells[k - 1]), v) {
            prev.push(cells[k - 1])
        } else {
            prev
        }
    }
}

/// A candidate of a region and the cells of the region that hold it.
pub struct Candidate {
    /// The cells that hold the candidate, in the order they were found.
    pub cells: Vec<Coord>,
    /// The candidate.
    pub value: u8,
}

/// The candidates of a region, in the order they were first found.
pub struct RegionNotes {
    /// One entry per candidate.
    pub notes: Vec<Candidate>,
}

/// A returned type to differentiate between Row or Column locked candidates.
#[derive(Debug, Clone, Copy, PartialEq, Eq, Structural)]
pub enum LockedCandidate {
    /// The candidate and the row its cells share.
    Row(u8, usize),
    /// The candidate and the column its cells share.
    Column(u8, usize),
}

/// All the cells share the row of the first one.
pub open spec fn same_row(cells: Seq<Coord>) -> bool {
    forall|i: int| 0 <= i < cells.len() ==> #[trigger] cells[i].row == cells[0].row
}

/// All the cells share the column of the first one.
pub open spec fn same_col(cells: Seq<Coord>) -> bool {
    forall|i: int| 0 <= i < cells.len() ==> #[trigger] cells[i].col == cells[0].col
}

impl RegionNotes {
    /// The candidates, in order.
    pub open spec fn values(&self) -> Seq<u8> {
        self.notes@.map_values(|c: Candidate| c.value)
    }

    /// The cells of the `i`-th entry.
    pub open spec fn cells_at(&self, i: int) -> Seq<Coord> {
        self.notes@[i].cells@
    }

    /// Every entry has a cell.
    pub open spec fn cells_nonempty(&self) -> bool {
        forall|i: int| 0 <= i < self.notes@.len() ==> #[trigger] self.cells_at(i).len() > 0
    }

    /// Each candidate has one entry, and every entry has a cell.
    pub open spec fn wf(&self) -> bool {
        &&& self.values().no_duplicates()
        &&& self.cells_nonempty()
    }

    /// The entries as candidates with their cells.
    pub open spec fn entries(&self) -> Seq<(u8, Seq<Coord>)> {
        self.notes@.map_values(|c: Candidate| (c.value, c.cells@))
    }

    /// Every listed cell is a cell of an `n` x `n` grid.
    pub open spec fn cells_in_grid(&self, n: nat) -> bool {
        forall|i: int, k: int|
            0 <= i < self.notes@.len() && 0 <= k < self.cells_at(i).len() ==> in_grid(n, #[trigger] self.cells_at(i)[k])
    }

    /// The cells listed for the candidate `v` (none when it is not listed).
    pub open spec fn listed(&self, v: u8) -> Seq<Coord> {
        if self.values().contains(v) {
            self.cells_at(self.values().index_of(v))
        } else {
            Seq::empty()
        }
    }

    /// The hidden singles among the first `k` entries: the only cell of each
    /// entry that has one cell, with the candidate.
    pub open spec fn singles_upto(&self, k: nat) -> Seq<(Coord, u8)>
        decreases k,
    {
        if k == 0 {
            Seq::empty()
        } else {
            let prev = self.singles_upto((k - 1) as nat);
            let i = k - 1;
            if self.cells_at(i).len() == 1 {
                prev.push((self.cells_at(i)[0], self.notes@[i].value))
            } else {
                prev
            }
        }
    }

    /// The locked candidates among the first `k` entries: for each entry whose
    /// cells share a row, that row, then, if they share a column, that column.
    pub open spec fn locked_upto(&self, k: nat) -> Seq<LockedCandidate>
        decreases k,
    {
        if k == 0 {
            Seq::empty()
        } else {
            let prev = self.locked_upto((k - 1) as nat);
            let i = k - 1;
            let cells = self.cells_at(i);
            let v = self.notes@[i].value;
            let with_row = if same_row(cells) {
                prev.push(LockedCandidate::Row(v, cells[0].row))
            } else {
                prev
            };
            if same_col(cells) {
                with_row.push(LockedCandidate::Column(v, cells[0].col))
            } else {
                with_row
            }
        }
    }

    /// An empty list of candidates.
    pub fn new() -> (r: RegionNotes)
        ensures
            r.notes@.len() == 0,
            r.wf(),
    {
        RegionNotes { notes: Vec::new() }
    }

    /// With one entry per candidate, the entry at `i` is the one listed for its candidate.
    pub proof fn lemma_listed(&self, i: int)
        requires
            self.values().no_duplicates(),
            0 <= i < self.notes@.len(),
        ensures
            self.listed(self.values()[i]) == self.cells_at(i),
    {
        let v = self.values()[i];
        assert(self.values().contains(v));
        let j = self.values().index_of(v);
        assert(0 <= j < self.values().len() && self.values()[j] == v);
    }

    /// Add `coord` to the cells of `candidate`, listing the candidate first
    /// if needed.
    fn push_notes(&mut self, coord: Coord, candidate: u8)
        requires
            old(self).wf(),
        ensures
            final(self).wf(),
            final(self).values() == if old(self).values().contains(candidate) {
                old(self).values()
            } else {
                old(self).values().push(candidate)
            },
            forall|w: u8| #[trigger] final(self).listed(w) == if w == candidate {
                old(self).listed(w).push(coord)
            } else {
                old(self).listed(w)
            },
    {
        let ghost vals = self.values();
        let ghost start = *self;
        let mut i: usize = 0;
        while i < self.notes.len()
            invariant
                self.values() == vals,
                *self == start,
                start == *old(self),
                start.wf(),
                0 <= i <= self.notes@.len(),
                forall|k: int| 0 <= k < i ==> vals[k] != candidate,
            decreases self.notes.len() - i,
        {
            if self.notes[i].value == candidate {
                let mut entry = Candidate { cells: Vec::new(), value: 0 };
                self.notes.set_and_swap(i, &mut entry);
                assert(entry == start.notes@[i as int]);
                entry.cells.push(coord);
                let ghost e = entry;
                assert(e.cells@ == start.cells_at(i as int).push(coord));
                self.notes.set(i, entry);
                assert(self.notes@[i as int] == e);
                proof {
                    assert(self.values() =~= vals);
                    assert(self.notes@ == start.notes@.update(i as int, e));
                    assert forall|k: int| 0 <= k < self.notes@.len() implies #[trigger] self.cells_at(k).len() > 0 by {
                        if k != i {
                            assert(self.notes@[k] == start.notes@[k]);
                            assert(start.cells_at(k).len() > 0);
                        } else {
                            assert(self.cells_at(k) == e.cells@);
                        }
                    }
                    assert(self.wf());
                    start.lemma_listed(i as int);
                    self.lemma_listed(i as int);
                    assert forall|w: u8| #[trigger] self.listed(w) == if w == candidate {
                        start.listed(w).push(coord)
                    } else {
                        start.listed(w)
                    } by {
                        if w != candidate && vals.contains(w) {
                            let j = choose|j: int| 0 <= j < vals.len() && vals[j] == w;
                            start.lemma_listed(j);
                            self.lemma_listed(j);
                        }
                    }
                }
                return;
            }
            i += 1;
        }
        let mut cells: Vec<Coord> = Vec::new();
        cells.push(coord);
        self.notes.push(Candidate { cells, value: candidate });
        proof {
            assert(!vals.contains(candidate));
            assert(self.values() =~= vals.push(candidate));
            assert(self.values().no_duplicates());
            assert forall|k: int| 0 <= k < self.notes@.len() implies #[trigger] self.cells_at(k).len() > 0 by {
                if k < vals.len() {
                    assert(self.cells_at(k) == start.cells_at(k));
                }
            }
            assert(self.wf());
            self.lemma_listed(vals.len() as int);
            assert forall|w: u8| #[trigger] self.listed(w) == if w == candidate {
                start.listed(w).push(coord)
            } else {
                start.listed(w)
            } by {
                if w == candidate {
                    assert(start.listed(w) == Seq::<Coord>::empty());
                    assert(self.cells_at(vals.len() as int) =~= seq![coord]);
                } else if vals.contains(w) {
                    let j = choose|j: int| 0 <= j < vals.len() && vals[j] == w;
                    start.lemma_listed(j);
                    self.lemma_listed(j);
                } else {
                    assert(!self.values().contains(w));
                }
            }
        }
    }

    /// List the candidates of the members of region `index` and, for each,
    /// the members that hold it (in row-major order).
    pub fn scan(&mut self, board: &Board, index: u8)
        requires
            old(self).wf(),
            board.wf(),
        ensures
            final(self).wf(),
            ({
                let members = board.kind.member_seq(board.size, index as int);
                &&& forall|w: u8| #[trigger] final(self).listed(w) == old(self).listed(w) + holders_in(*board, members, w, members.len())
                &&& forall|w: u8| #[trigger] final(self).values().contains(w) <==> (old(self).values().contains(w)
                    || holders_in(*board, members, w, members.len()).len() > 0)
            }),
    {
        let members = board.kind.members(&board.size, index);
        let ghost ms = members@;
        let mut k: usize = 0;
        while k < members.len()
            invariant
                board.wf(),
                ms == members@,
                ms == board.kind.member_seq(board.size, index as int),
                0 <= k <= ms.len(),
                self.wf(),
                forall|w: u8| #[trigger] self.listed(w) == old(self).listed(w) + holders_in(*board, ms, w, k as nat),
                forall|w: u8| #[trigger] self.values().contains(w) <==> (old(self).values().contains(w)
                    || holders_in(*board, ms, w, k as nat).len() > 0),
            decreases ms.len() - k,
        {
            let coord = members[k];
            proof {
                board.lemma_view();
                board.kind.lemma_member_in_grid(board.size, index as int, k as int);
            }
            if let Cell::Notes(notes) = &board.grid[coord.row][coord.col] {
                assert(board.at(coord) == CellView::Notes(notes@));
                let ghost keys = notes.iter().remaining().unref();
                let ghost before = *self;
                for x in it: notes.iter()
                    invariant
                        keys.to_set() == notes@,
                        keys.no_duplicates(),
                        it.seq().unref() == keys,
                        0 <= it.index() <= keys.len(),
                        self.wf(),
                        forall|w: u8| #[trigger] self.listed(w) == if keys.take(it.index() as int).contains(w) {
                            before.listed(w).push(coord)
                        } else {
                            before.listed(w)
                        },
                        forall|w: u8| #[trigger] self.values().contains(w) <==> (before.values().contains(w)
                            || keys.take(it.index() as int).contains(w)),
                {
                    let ghost i = it.index();
                    assert(*x == keys[i]);
                    let ghost mid = *self;
                    self.push_notes(coord, *x);
                    proof {
                        assert(keys.take(i + 1) == keys.take(i).push(keys[i]));
                        assert(!keys.take(i).contains(keys[i])) by {
                            if keys.take(i).contains(keys[i]) {
                                let j = choose|j: int| 0 <= j < i && keys.take(i)[j] == keys[i];
                                assert(keys[j] == keys[i]);
                            }
                        }
                        assert forall|w: u8| #[trigger] self.values().contains(w) <==> (before.values().contains(w)
                            || keys.take(i + 1).contains(w)) by {
                            assert(mid.values().contains(w) <==> (before.values().contains(w) || keys.take(i).contains(w)));
                            if w == keys[i] {
                                assert(keys.take(i + 1)[i] == w);
                                if !mid.values().contains(w) {
                                    assert(self.values()[mid.values().len() as int] == w);
                                }
                            } else {
                                assert(keys.take(i + 1).contains(w) == keys.take(i).contains(w));
                                if self.values().contains(w) && !mid.values().contains(w) {
                                    let j = choose|j: int| 0 <= j < self.values().len() && self.values()[j] == w;
                                    assert(j < mid.values().len() ==> mid.values()[j] == w);
                                }
                                if mid.values().contains(w) {
                                    let j = choose|j: int| 0 <= j < mid.values().len() && mid.values()[j] == w;
                                    assert(self.values()[j] == w);
                                }
                            }
                        }
                        assert forall|w: u8| #[trigger] self.listed(w) == if keys.take(i + 1).contains(w) {
                            before.listed(w).push(coord)
                        } else {
                            before.listed(w)
                        } by {
                            assert(mid.listed(w) == if keys.take(i).contains(w) {
                                before.listed(w).push(coord)
                            } else {
                                before.listed(w)
                            });
                            if w == keys[i] {
                                assert(keys.take(i + 1)[i] == w);
                            } else {
                                assert(keys.take(i + 1).contains(w) == keys.take(i).contains(w));
                            }
                        }
                    }
                }
                proof {
                    assert(keys.take(keys.len() as int) == keys);
                    assert forall|w: u8| #[trigger] self.listed(w) == old(self).listed(w) + holders_in(*board, ms, w, (k + 1) as nat) by {
                        assert(keys.contains(w) == notes@.contains(w));
                        assert(before.listed(w) == old(self).listed(w) + holders_in(*board, ms, w, k as nat));
                        assert(old(self).listed(w) + holders_in(*board, ms, w, k as nat).push(coord) =~= (old(self).listed(w) + holders_in(*board, ms, w, k as nat)).push(coord));
                    }
                    assert forall|w: u8| #[trigger] self.values().contains(w) <==> (old(self).values().contains(w)
                        || holders_in(*board, ms, w, (k + 1) as nat).len() > 0) by {
                        assert(keys.contains(w) == notes@.contains(w));
                        assert(before.values().contains(w) <==> (old(self).values().contains(w)
                            || holders_in(*board, ms, w, k as nat).len() > 0));
                    }
                }
            }
            k += 1;
        }
    }

    /// The hidden singles of the region: for every candidate held by a single
    /// cell, that cell and the candidate, in entry order.
    pub fn find_singles(&self) -> (r: Vec<(Coord, u8)>)
        requires
            self.wf(),
        ensures
            r@ == self.singles_upto(self.notes@.len()),
    {
        let mut singles: Vec<(Coord, u8)> = Vec::new();
        let mut i: usize = 0;
        while i < self.notes.len()
            invariant
                0 <= i <= self.notes@.len(),
                singles@ == self.singles_upto(i as nat),
            decreases self.notes.len() - i,
        {
            let possible = &self.notes[i];
            if possible.cells.len() == 1 {
                let coord = possible.cells[0];
                singles.push((coord, possible.value));
            }
            i += 1;
        }
        singles
    }

    /// The locked candidates (pointing pairs and triples) of the region: for
    /// every candidate whose cells share a row, that row, and whose cells
    /// share a column, that column, in entry order.
    pub fn find_locked_candidates(&self) -> (r: Vec<LockedCandidate>)
        requires
            self.cells_nonempty(),
        ensures
            r@ == self.locked_upto(self.notes@.len()),
    {
        let mut pairs: Vec<LockedCandidate> = Vec::new();
        let mut i: usize = 0;
        while i < self.notes.len()
            invariant
                self.cells_nonempty(),
                0 <= i <= self.notes@.len(),
                pairs@ == self.locked_upto(i as nat),
            decreases self.notes.len() - i,
        {
            let possible = &self.notes[i];
            assert(self.cells_at(i as int).len() > 0);
            let cells = &possible.cells;
            let first = cells[0];
            let mut common_row: Option<usize> = Some(first.row);
            let mut common_col: Option<usize> = Some(first.col);
            let mut j: usize = 1;
            while j < cells.len()
                invariant
                    1 <= j <= cells@.len(),
                    first == cells@[0],
                    common_row is Some <==> forall|k: int| 0 <= k < j ==> #[trigger] cells@[k].row == first.row,
                    common_row is Some ==> common_row == Some(first.row),
                    common_col is Some <==> forall|k: int| 0 <= k < j ==> #[trigger] cells@[k].col == first.col,
                    common_col is Some ==> common_col == Some(first.col),
                decreases cells.len() - j,
            {
                let coord = cells[j];
                if let Some(v) = common_row {
                    if v != coord.row {
                        common_row = None;
                    }
                }
                if let Some(v) = common_col {
                    if v != coord.col {
                        common_col = None;
                    }
                }
                j += 1;
            }
            if let Some(r) = common_row {
                pairs.push(LockedCandidate::Row(possible.value, r));
            }
            if let Some(c) = common_col {
                pairs.push(LockedCandidate::Column(possible.value, c));
            }
            i += 1;
        }
        pairs
    }
}

/// The candidate `c` with its cells is one of the entries `e`.
pub open spec fn entry_of(c: Candidate, e: Seq<(u8, Seq<Coord>)>) -> bool {
    exists|j: int| 0 <= j < e.len() && (c.value, c.cells@) == e[j]
}

/// The entries among the first `k` of `e` whose candidate is not in `vals`.
pub open spec fn keep_upto(e: Seq<(u8, Seq<Coord>)>, vals: Seq<u8>, k: nat) -> Seq<(u8, Seq<Coord>)>
    decreases k,
{
    if k == 0 {
        Seq::empty()
    } else {
        let prev = keep_upto(e, vals, (k - 1) as nat);
        if vals.contains(e[k - 1].0) {
            prev
        } else {
            prev.push(e[k - 1])
        }
    }
}

/// Every cell in `holders_in` comes from `cells` and holds the candidate.
pub proof fn lemma_holders_in(b: Board, cells: Seq<Coord>, v: u8, k: nat)
    requires
        k <= cells.len(),
    ensures
        forall|i: int|
            0 <= i < holders_in(b, cells, v, k).len() ==> cells.contains(#[trigger] holders_in(b, cells, v, k)[i])
                && holds(b.at(holders_in(b, cells, v, k)[i]), v),
    decreases k,
{
    if k > 0 {
        lemma_holders_in(b, cells, v, (k - 1) as nat);
        let prev = holders_in(b, cells, v, (k - 1) as nat);
        assert forall|i: int| 0 <= i < holders_in(b, cells, v, k).len() implies cells.contains(#[trigger] holders_in(b, cells, v, k)[i])
            && holds(b.at(holders_in(b, cells, v, k)[i]), v) by {
            if i < prev.len() {
                assert(holders_in(b, cells, v, k)[i] == prev[i]);
            } else {
                assert(holders_in(b, cells, v, k)[i] == cells[k - 1]);
            }
        }
    }
}

/// Every one of the first `k` cells that holds the candidate is in `holders_in`.
pub proof fn lemma_holders_in_all(b: Board, cells: Seq<Coord>, v: u8, k: nat)
    requires
        k <= cells.len(),
    ensures
        forall|j: int| 0 <= j < k && holds(b.at(#[trigger] cells[j]), v) ==> holders_in(b, cells, v, k).contains(cells[j]),
    decreases k,
{
    if k > 0 {
        lemma_holders_in_all(b, cells, v, (k - 1) as nat);
        let prev = holders_in(b, cells, v, (k - 1) as nat);
        assert forall|j: int| 0 <= j < k && holds(b.at(#[trigger] cells[j]), v) implies holders_in(b, cells, v, k).contains(cells[j]) by {
            if j < k - 1 {
                assert(prev.contains(cells[j]));
                let i = choose|i: int| 0 <= i < prev.len() && prev[i] == cells[j];
                if holds(b.at(cells[k - 1]), v) {
                    assert(holders_in(b, cells, v, k) == prev.push(cells[k - 1]));
                    assert(holders_in(b, cells, v, k)[i] == cells[j]);
                } else {
                    assert(holders_in(b, cells, v, k) == prev);
                }
            } else {
                assert(holders_in(b, cells, v, k) == prev.push(cells[k - 1]));
                assert(holders_in(b, cells, v, k)[prev.len() as int] == cells[j]);
            }
        }
    }
}

impl RegionNotes {
    /// The entry `i` gives rise to the locked candidate `lc`: it lists the
    /// candidate of `lc`, and all its cells lie in the row or column of `lc`.
    pub open spec fn locked_source(&self, lc: LockedCandidate, i: int) -> bool {
        match lc {
            LockedCandidate::Row(v, r) => self.notes@[i].value == v && same_row(self.cells_at(i))
                && self.cells_at(i)[0].row == r,
            LockedCandidate::Column(v, c) => self.notes@[i].value == v && same_col(self.cells_at(i))
                && self.cells_at(i)[0].col == c,
        }
    }

    /// One of the first `k` entries gives rise to `lc`.
    pub open spec fn has_source(&self, lc: LockedCandidate, k: nat) -> bool {
        exists|i: int| 0 <= i < k && self.locked_source(lc, i)
    }

    /// Every locked candidate among the first `k` entries comes from one of them.
    pub proof fn lemma_locked_source(&self, k: nat)
        requires
            k <= self.notes@.len(),
        ensures
            forall|j: int| 0 <= j < self.locked_upto(k).len() ==> self.has_source(#[trigger] self.locked_upto(k)[j], k),
        decreases k,
    {
        if k > 0 {
            self.lemma_locked_source((k - 1) as nat);
            let i = k - 1;
            let cells = self.cells_at(i);
            let prev = self.locked_upto((k - 1) as nat);
            let v = self.notes@[i].value;
            let with_row = if same_row(cells) {
                prev.push(LockedCandidate::Row(v, cells[0].row))
            } else {
                prev
            };
            assert forall|j: int| 0 <= j < with_row.len() implies self.has_source(#[trigger] with_row[j], k) by {
                if j < prev.len() {
                    assert(with_row[j] == prev[j]);
                    assert(self.has_source(prev[j], (k - 1) as nat));
                    let i2 = choose|i2: int| 0 <= i2 < k - 1 && self.locked_source(prev[j], i2);
                } else {
                    assert(self.locked_source(with_row[j], i as int));
                }
            }
            assert forall|j: int| 0 <= j < self.locked_upto(k).len() implies self.has_source(#[trigger] self.locked_upto(k)[j], k) by {
                if j < with_row.len() {
                    assert(self.locked_upto(k)[j] == with_row[j]);
                } else {
                    assert(self.locked_source(self.locked_upto(k)[j], i as int));
                }
            }
        }
    }
}

/// Dropping no candidate keeps every entry.
pub proof fn lemma_keep_all(e: Seq<(u8, Seq<Coord>)>, vals: Seq<u8>, k: nat)
    requires
        vals.len() == 0,
        k <= e.len(),
    ensures
        keep_upto(e, vals, k) == e.take(k as int),
    decreases k,
{
    if k > 0 {
        lemma_keep_all(e, vals, (k - 1) as nat);
        assert(!vals.contains(e[k - 1].0));
        assert(e.take(k as int) == e.take(k - 1).push(e[k - 1]));
    }
}

/// An entry among the first `k` whose candidate is not dropped is kept.
pub proof fn lemma_keep_contains(e: Seq<(u8, Seq<Coord>)>, vals: Seq<u8>, k: nat, j: int)
    requires
        0 <= j < k,
        k <= e.len(),
        !vals.contains(e[j].0),
    ensures
        keep_upto(e, vals, k).contains(e[j]),
    decreases k,
{
    let prev = keep_upto(e, vals, (k - 1) as nat);
    if j < k - 1 {
        lemma_keep_contains(e, vals, (k - 1) as nat, j);
        let q = choose|q: int| 0 <= q < prev.len() && prev[q] == e[j];
        assert(keep_upto(e, vals, k)[q] == e[j]);
    } else {
        assert(keep_upto(e, vals, k)[prev.len() as int] == e[j]);
    }
}

impl RegionNotes {
    /// Every entry of one cell among the first `k` gives a hidden single.
    pub proof fn lemma_singles_complete(&self, k: nat)
        requires
            k <= self.notes@.len(),
        ensures
            forall|i: int|
                0 <= i < k && #[trigger] self.cells_at(i).len() == 1 ==> self.singles_upto(k).contains(
                    (self.cells_at(i)[0], self.notes@[i].value),
                ),
        decreases k,
    {
        if k > 0 {
            self.lemma_singles_complete((k - 1) as nat);
            let prev = self.singles_upto((k - 1) as nat);
            assert forall|i: int| 0 <= i < k && #[trigger] self.cells_at(i).len() == 1 implies self.singles_upto(k).contains(
                (self.cells_at(i)[0], self.notes@[i].value),
            ) by {
                if i < k - 1 {
                    let p = (self.cells_at(i)[0], self.notes@[i].value);
                    let q = choose|q: int| 0 <= q < prev.len() && prev[q] == p;
                    assert(self.singles_upto(k)[q] == p);
                } else {
                    assert(self.singles_upto(k)[prev.len() as int] == (self.cells_at(i)[0], self.notes@[i].value));
                }
            }
        }
    }

    /// Some hidden single is found among the first `k` entries exactly when
    /// one of them has a single cell.
    pub proof fn lemma_singles_exist(&self, k: nat)
        requires
            k <= self.notes@.len(),
        ensures
            self.singles_upto(k).len() > 0 <==> exists|i: int| 0 <= i < k && #[trigger] self.cells_at(i).len() == 1,
        decreases k,
    {
        if k > 0 {
            self.lemma_singles_exist((k - 1) as nat);
            if exists|i: int| 0 <= i < k && #[trigger] self.cells_at(i).len() == 1 {
                let i = choose|i: int| 0 <= i < k && #[trigger] self.cells_at(i).len() == 1;
                if i < k - 1 {
                    assert(self.singles_upto((k - 1) as nat).len() > 0);
                }
            }
        }
    }

    /// Every entry whose cells share a row (a column) gives a locked candidate
    /// for that row (column).
    pub proof fn lemma_locked_complete(&self, k: nat, i: int)
        requires
            self.cells_nonempty(),
            k <= self.notes@.len(),
            0 <= i < k,
        ensures
            same_row(self.cells_at(i)) ==> self.locked_upto(k).contains(
                LockedCandidate::Row(self.notes@[i].value, self.cells_at(i)[0].row),
            ),
            same_col(self.cells_at(i)) ==> self.locked_upto(k).contains(
                LockedCandidate::Column(self.notes@[i].value, self.cells_at(i)[0].col),
            ),
        decreases k,
    {
        let prev = self.locked_upto((k - 1) as nat);
        let j = k - 1;
        let cells = self.cells_at(j);
        let v = self.notes@[j].value;
        let with_row = if same_row(cells) {
            prev.push(LockedCandidate::Row(v, cells[0].row))
        } else {
            prev
        };
        assert(self.locked_upto(k) == if same_col(cells) {
            with_row.push(LockedCandidate::Column(v, cells[0].col))
        } else {
            with_row
        });
        assert forall|x: LockedCandidate| prev.contains(x) implies self.locked_upto(k).contains(x) by {
            let q = choose|q: int| 0 <= q < prev.len() && prev[q] == x;
            assert(with_row[q] == x);
            assert(self.locked_upto(k)[q] == x);
        }
        assert forall|x: LockedCandidate| with_row.contains(x) implies self.locked_upto(k).contains(x) by {
            let q = choose|q: int| 0 <= q < with_row.len() && with_row[q] == x;
            assert(self.locked_upto(k)[q] == x);
        }
        if i < k - 1 {
            self.lemma_locked_complete((k - 1) as nat, i);
        } else {
            if same_row(cells) {
                assert(with_row[prev.len() as int] == LockedCandidate::Row(v, cells[0].row));
                assert(with_row.contains(LockedCandidate::Row(v, cells[0].row)));
            }
            if same_col(cells) {
                assert(self.locked_upto(k)[with_row.len() as int] == LockedCandidate::Column(v, cells[0].col));
            }
        }
    }
}

impl RegionNotes {
    /// Every hidden single is the only cell listed for its candidate.
    pub proof fn lemma_singles(&self, k: nat)
        requires
            self.wf(),
            k <= self.notes@.len(),
        ensures
            forall|j: int| 0 <= j < self.singles_upto(k).len() ==> self.listed(#[trigger] self.singles_upto(k)[j].1)
                == seq![self.singles_upto(k)[j].0],
        decreases k,
    {
        if k > 0 {
            self.lemma_singles((k - 1) as nat);
            let i = k - 1;
            let prev = self.singles_upto((k - 1) as nat);
            if self.cells_at(i).len() == 1 {
                self.lemma_listed(i);
                assert(self.values()[i] == self.notes@[i].value);
                assert(self.cells_at(i) =~= seq![self.cells_at(i)[0]]);
                assert forall|j: int| 0 <= j < self.singles_upto(k).len() implies self.listed(#[trigger] self.singles_upto(k)[j].1)
                    == seq![self.singles_upto(k)[j].0] by {
                    if j < prev.len() {
                        assert(self.singles_upto(k)[j] == prev[j]);
                    }
                }
            } else {
                assert(self.singles_upto(k) == prev);
            }
        }
    }

    /// The rows and columns of the locked candidates are those of listed cells.
    pub proof fn lemma_locked_lines(&self, n: nat, k: nat)
        requires
            self.cells_nonempty(),
            self.cells_in_grid(n),
            k <= self.notes@.len(),
        ensures
            forall|j: int| 0 <= j < self.locked_upto(k).len() ==> match #[trigger] self.locked_upto(k)[j] {
                LockedCandidate::Row(_, r) => r < n,
                LockedCandidate::Column(_, c) => c < n,
            },
        decreases k,
    {
        if k > 0 {
            self.lemma_locked_lines(n, (k - 1) as nat);
            let i = k - 1;
            let cells = self.cells_at(i);
            assert(in_grid(n, cells[0]));
            let prev = self.locked_upto((k - 1) as nat);
            let v = self.notes@[i].value;
            let with_row = if same_row(cells) {
                prev.push(LockedCandidate::Row(v, cells[0].row))
            } else {
                prev
            };
            assert forall|j: int| 0 <= j < with_row.len() implies match #[trigger] with_row[j] {
                LockedCandidate::Row(_, r) => r < n,
                LockedCandidate::Column(_, c) => c < n,
            } by {
                if j < prev.len() {
                    assert(with_row[j] == prev[j]);
                }
            }
            assert forall|j: int| 0 <= j < self.locked_upto(k).len() implies match #[trigger] self.locked_upto(k)[j] {
                LockedCandidate::Row(_, r) => r < n,
                LockedCandidate::Column(_, c) => c < n,
            } by {
                if j < with_row.len() {
                    assert(self.locked_upto(k)[j] == with_row[j]);
                }
            }
        }
    }

    /// Drop the entries of the candidates in `values`, keeping the order of the others.
    pub fn drop_values(&mut self, values: &Vec<u8>)
        requires
            old(self).cells_nonempty(),
        ensures
            final(self).cells_nonempty(),
            final(self).entries() == keep_upto(old(self).entries(), values@, old(self).notes@.len()),
            forall|i: int| 0 <= i < final(self).notes@.len() ==> exists|j: int|
                0 <= j < old(self).notes@.len() && #[trigger] final(self).entries()[i] == old(self).entries()[j],
    {
        let mut kept: Vec<Candidate> = Vec::new();
        let ghost e = self.entries();
        let mut i: usize = 0;
        while i < self.notes.len()
            invariant
                self.cells_nonempty(),
                e == self.entries(),
                0 <= i <= self.notes@.len(),
                kept@.map_values(|c: Candidate| (c.value, c.cells@)) == keep_upto(e, values@, i as nat),
                forall|k: int| 0 <= k < kept@.len() ==> #[trigger] kept@[k].cells@.len() > 0,
                forall|k: int| 0 <= k < kept@.len() ==> entry_of(#[trigger] kept@[k], e),
            decreases self.notes.len() - i,
        {
            let entry = &self.notes[i];
            assert(e[i as int] == (entry.value, entry.cells@));
            if !vec_has(values, entry.value) {
                let cells = copy_coords(&entry.cells);
                kept.push(Candidate { cells, value: entry.value });
                proof {
                    assert(self.cells_at(i as int).len() > 0);
                    assert(kept@.map_values(|c: Candidate| (c.value, c.cells@)) =~= keep_upto(e, values@, (i + 1) as nat));
                    assert forall|k: int| 0 <= k < kept@.len() implies entry_of(#[trigger] kept@[k], e) by {
                        if k == kept@.len() - 1 {
                            assert((kept@[k].value, kept@[k].cells@) == e[i as int]);
                        }
                    }
                }
            } else {
                assert(kept@.map_values(|c: Candidate| (c.value, c.cells@)) =~= keep_upto(e, values@, (i + 1) as nat));
            }
            i += 1;
        }
        self.notes = kept;
        proof {
            assert forall|i: int| 0 <= i < self.notes@.len() implies exists|j: int|
                0 <= j < e.len() && #[trigger] self.entries()[i] == e[j] by {
                assert(self.entries()[i] == (self.notes@[i].value, self.notes@[i].cells@));
                assert(entry_of(self.notes@[i], e));
            }
        }
    }
}

} // verus!
