//! Backtracking search over the candidates left by the solving strategies.
use std::collections::HashSet;
use crate::board::{copy_grid, full_notes, Board};
use crate::cell::{Cell, CellView, Coord};
use crate::progress::lemma_refines_refl;
use crate::region::{in_grid, BoardKind};
use crate::solution::{val, values_of, lemma_admits_not_stuck, lemma_keeps_refl, lemma_keeps_trans, lemma_place_admits, lemma_refined_solution};
use crate::strategy::{lemma_place_candidate, lemma_sound_trans, place, HiddenSets, HiddenSingles, NakedSingles, RegionLineReduction, Strategy};
use vstd::prelude::*;
use vstd::std_specs::iter::IteratorSpec;

verus! {

broadcast use vstd::std_specs::hash::group_hash_axioms;

/// `a` comes before `b` in row-major order.
pub open spec fn before(a: Coord, b: Coord) -> bool {
    a.row < b.row || (a.row == b.row && a.col < b.col)
}

impl Board {
    /// An empty cell of the grid has no candidate left.
    pub open spec fn stuck(&self) -> bool {
        exists|c: Coord|
            in_grid(self.n(), c) && #[trigger] self.at(c) is Notes && self.at(c)->Notes_0
                =~= Set::<u8>::empty()
    }

    /// The cell `c` is empty with at least one candidate.
    pub open spec fn open_cell(&self, c: Coord) -> bool {
        &&& in_grid(self.n(), c)
        &&& self.at(c) is Notes
        &&& 0 < self.at(c)->Notes_0.len()
    }

    /// The number of candidates of the cell `c`.
    pub open spec fn note_count(&self, c: Coord) -> nat {
        self.at(c)->Notes_0.len()
    }

    /// Does the board have any unfilled cells with empty notes?
    ///
    /// This indicates that the board is unsolvable.
    /// Internally, this is used to check if a solving [`crate::strategy::Strategy`]
    /// has made the board unsolvable.
    pub fn has_unsolvable_cells(&self) -> (r: bool)
        requires
            self.wf(),
        ensures
            r == self.stuck(),
            r ==> !self.solvable(),
    {
        proof {
            if self.solvable() {
                let sol = choose|sol: Seq<Seq<u8>>| self.admits(sol);
                lemma_admits_not_stuck(*self, sol);
            }
        }
        let max_cells = self.size.max_cells() as usize;
        let ghost n = self.n();
        let mut row: usize = 0;
        while row < max_cells
            invariant
                self.wf(),
                max_cells == n,
                n == self.n(),
                0 <= row <= n,
                forall|c: Coord|
                    in_grid(n, c) && c.row < row ==> !(#[trigger] self.at(c) is Notes
                        && self.at(c)->Notes_0 =~= Set::<u8>::empty()),
            decreases n - row,
        {
            let mut col: usize = 0;
            while col < max_cells
                invariant
                    self.wf(),
                    max_cells == n,
                    n == self.n(),
                    0 <= row < n,
                    0 <= col <= n,
                    forall|c: Coord|
                        in_grid(n, c) && (c.row < row || (c.row == row && c.col < col)) ==> !(
                        #[trigger] self.at(c) is Notes && self.at(c)->Notes_0 =~= Set::<u8>::empty()),
                decreases n - col,
            {
                proof {
                    self.lemma_view();
                }
                if let Cell::Notes(notes) = &self.grid[row][col] {
                    if notes.is_empty() {
                        let ghost c = Coord { row, col };
                        assert(self.at(c) is Notes && self.at(c)->Notes_0 =~= Set::<u8>::empty());
                        return true;
                    }
                }
                col += 1;
            }
            row += 1;
        }
        false
    }

    /// Get the coordinate of the cell with the least number of notes remaining.
    ///
    /// Among the empty cells that still have a candidate, one with the fewest
    /// candidates is returned: the first such in row-major order.
    ///
    /// This function serves as starting point for guessing in the backtracking algorithm.
    ///
    /// Returns `None` if there are no cells with notes remain.
    pub fn get_cell_with_least_notes(&self) -> (r: Option<Coord>)
        requires
            self.wf(),
        ensures
            r is None <==> !(exists|c: Coord| #[trigger] self.open_cell(c)),
            r matches Some(t) ==> {
                &&& self.open_cell(t)
                &&& forall|d: Coord| #[trigger]
                    self.open_cell(d) ==> self.note_count(t) <= self.note_count(d) && (before(d, t)
                        ==> self.note_count(t) < self.note_count(d))
            },
    {
        let max_cells = self.size.max_cells() as usize;
        let ghost n = self.n();
        let mut min_notes: usize = 0;
        let mut target_cell: Option<Coord> = None;
        let mut row: usize = 0;
        while row < max_cells
            invariant_except_break
                self.wf(),
                max_cells == n,
                n == self.n(),
                0 <= row <= n,
                target_cell is None ==> forall|d: Coord|
                    #[trigger] self.open_cell(d) ==> !(d.row < row),
                target_cell matches Some(t) ==> {
                    &&& self.open_cell(t)
                    &&& self.note_count(t) == min_notes
                    &&& min_notes >= 1
                    &&& t.row < row
                    &&& forall|d: Coord| #[trigger]
                        self.open_cell(d) && d.row < row ==> min_notes <= self.note_count(d) && (
                        before(d, t) ==> min_notes < self.note_count(d))
                },
            ensures
                target_cell is None ==> forall|d: Coord|
                    #[trigger] self.open_cell(d) ==> false,
                target_cell matches Some(t) ==> {
                    &&& self.open_cell(t)
                    &&& self.note_count(t) == min_notes
                    &&& forall|d: Coord| #[trigger]
                        self.open_cell(d) ==> min_notes <= self.note_count(d) && (before(d, t)
                            ==> min_notes < self.note_count(d))
                },
            decreases n - row,
        {
            if target_cell.is_some() && min_notes == 1 {
                break;
            }
            let mut col: usize = 0;
            while col < max_cells
                invariant_except_break
                    self.wf(),
                    max_cells == n,
                    n == self.n(),
                    0 <= row < n,
                    0 <= col <= n,
                    target_cell is None ==> forall|d: Coord|
                        #[trigger] self.open_cell(d) ==> !(d.row < row || (d.row == row && d.col < col)),
                    target_cell matches Some(t) ==> {
                        &&& self.open_cell(t)
                        &&& self.note_count(t) == min_notes
                        &&& min_notes >= 1
                        &&& before(t, Coord { row, col })
                        &&& forall|d: Coord| #[trigger]
                            self.open_cell(d) && (d.row < row || (d.row == row && d.col < col))
                                ==> min_notes <= self.note_count(d) && (before(d, t) ==> min_notes
                                < self.note_count(d))
                    },
                ensures
                    target_cell is None ==> forall|d: Coord|
                        #[trigger] self.open_cell(d) ==> !(d.row <= row),
                    target_cell matches Some(t) ==> {
                        &&& self.open_cell(t)
                        &&& self.note_count(t) == min_notes
                        &&& min_notes >= 1
                        &&& t.row <= row
                        &&& forall|d: Coord| #[trigger]
                            self.open_cell(d) && (d.row <= row || min_notes == 1) ==> min_notes
                                <= self.note_count(d) && (before(d, t) ==> min_notes
                                < self.note_count(d))
                    },
                decreases n - col,
            {
                proof {
                    self.lemma_view();
                }
                if let Cell::Notes(notes) = &self.grid[row][col] {
                    let len = notes.len();
                    if len > 0 && (target_cell.is_none() || len < min_notes) {
                        min_notes = len;
                        target_cell = Some(Coord { row, col });
                    }
                }
                if target_cell.is_some() && min_notes == 1 {
                    break;
                }
                col += 1;
            }
            row += 1;
        }
        target_cell
    }
}

/// The candidates `0..k` are `k` values.
pub proof fn lemma_full_notes(k: nat)
    requires
        k <= 256,
    ensures
        full_notes(k).finite(),
        full_notes(k).len() == k,
    decreases k,
{
    if k == 0 {
        assert(full_notes(0) =~= Set::<u8>::empty());
    } else {
        lemma_full_notes((k - 1) as nat);
        assert(full_notes(k) =~= full_notes((k - 1) as nat).insert((k - 1) as u8));
    }
}

impl Board {
    /// Some cell of the grid is filled.
    pub open spec fn has_value(&self) -> bool {
        exists|c: Coord| in_grid(self.n(), c) && #[trigger] self.at(c) is Value
    }
}

/// Notes below the row length are finitely many.
pub proof fn lemma_notes_finite(b: Board, c: Coord)
    requires
        b.wf(),
        b.notes_in_range(),
        in_grid(b.n(), c),
        b.at(c) is Notes,
    ensures
        b.at(c)->Notes_0.finite(),
        b.at(c)->Notes_0.len() <= b.n(),
{
    lemma_full_notes(b.n());
    assert(b.at(c)->Notes_0.subset_of(full_notes(b.n())));
    vstd::set_lib::lemma_len_subset(b.at(c)->Notes_0, full_notes(b.n()));
}

/// The candidates of a set, listed once each.
fn note_list(notes: &HashSet<u8>) -> (r: Vec<u8>)
    ensures
        r@.to_set() == notes@,
{
    let mut r: Vec<u8> = Vec::new();
    let ghost keys = notes.iter().remaining().unref();
    for x in it: notes.iter()
        invariant
            keys.to_set() == notes@,
            it.seq().unref() == keys,
            0 <= it.index() <= keys.len(),
            r@ == keys.take(it.index()),
    {
        let ghost i = it.index();
        assert(*x == keys[i]);
        r.push(*x);
        assert(r@ == keys.take(i + 1));
    }
    assert(keys.take(keys.len() as int) == keys);
    r
}

impl Board {
    /// Solve the board using a backtracking algorithm (recursive).
    ///
    /// The strategies are applied first (region/line reductions and hidden
    /// singles until they change nothing, then naked singles and hidden
    /// sets); then the cell with the fewest candidates is guessed, candidate
    /// by candidate, on a copy of the board.
    ///
    /// Returns `true` if the board was solved, or `false` if it is unsolvable.
    /// A consistent board that has a solution is never found unsolvable.
    /// When `true` is returned every cell holds a value; for a consistent,
    /// conflict-free board the values are then free of conflicts and form
    /// one of its solutions.
    pub fn solve(&mut self) -> (r: bool)
        requires
            old(self).wf(),
            old(self).notes_in_range(),
        ensures
            old(self).sound_step(*final(self)),
            final(self).notes_in_range(),
            old(self).consistent() && old(self).solvable() ==> r,
            r ==> final(self).solved(),
            r && old(self).consistent() && old(self).no_conflict() ==> final(self).no_conflict() && old(self).admits(
                values_of(*final(self)),
            ),
        decreases old(self).measure(),
    {
        let ghost start = *self;
        let ghost sol = choose|sol: Seq<Seq<u8>>| start.admits(sol);
        proof {
            lemma_refines_refl(start);
            lemma_keeps_refl(start);
        }
        if self.has_unsolvable_cells() {
            proof {
                if start.consistent() && start.solvable() {
                    lemma_admits_not_stuck(*self, sol);
                }
            }
            return false;
        }
        loop
            invariant
                start.wf(),
                start == *old(self),
                start.sound_step(*self),
                start.keeps_solutions(*self),
                start.consistent() && start.solvable() ==> start.admits(sol),
                self.notes_in_range(),
                self.measure() <= start.measure(),
            decreases self.measure(),
        {
            let ghost b = *self;
            let set = RegionLineReduction::apply(self);
            proof {
                lemma_keeps_trans(start, b, *self);
                lemma_sound_trans(start, b, *self);
            }
            if !set {
                break;
            }
            if self.has_unsolvable_cells() {
                proof {
                    if start.consistent() && start.solvable() {
                        lemma_admits_not_stuck(*self, sol);
                    }
                }
                return false;
            }
        }
        loop
            invariant
                start.wf(),
                start == *old(self),
                start.sound_step(*self),
                start.keeps_solutions(*self),
                start.consistent() && start.solvable() ==> start.admits(sol),
                self.notes_in_range(),
                self.measure() <= start.measure(),
            decreases self.measure(),
        {
            let ghost b = *self;
            if !HiddenSingles::apply(self) {
                break;
            }
            proof {
                lemma_keeps_trans(start, b, *self);
                lemma_sound_trans(start, b, *self);
            }
            if self.has_unsolvable_cells() {
                proof {
                    if start.consistent() && start.solvable() {
                        lemma_admits_not_stuck(*self, sol);
                    }
                }
                return false;
            }
        }
        let ghost b = *self;
        let naked = NakedSingles::apply(self);
        proof {
            lemma_keeps_trans(start, b, *self);
            lemma_sound_trans(start, b, *self);
        }
        if naked && self.has_unsolvable_cells() {
            proof {
                if start.consistent() && start.solvable() {
                    lemma_admits_not_stuck(*self, sol);
                }
            }
            return false;
        }
        let ghost b = *self;
        let hidden = HiddenSets::apply(self);
        proof {
            lemma_keeps_trans(start, b, *self);
            lemma_sound_trans(start, b, *self);
        }
        if hidden {
            let ghost b = *self;
            proof {
                if start.consistent() && start.solvable() {
                    assert(b.admits(sol));
                }
            }
            let r = self.solve();
            proof {
                lemma_sound_trans(start, b, *self);
                if r && start.consistent() && start.no_conflict() {
                    lemma_refined_solution(start, *self);
                }
            }
            return r;
        }
        if let Some(coord) = self.get_cell_with_least_notes() {
            proof {
                self.lemma_view();
            }
            if let Cell::Notes(notes) = &self.grid[coord.row][coord.col] {
                let cands = note_list(notes);
                let ghost cur = *self;
                assert(cur.at(coord) == CellView::Notes(notes@));
                let mut k: usize = 0;
                while k < cands.len()
                    invariant
                        start.wf(),
                        start == *old(self),
                        start.sound_step(cur),
                        cur.notes_in_range(),
                        cur.measure() <= start.measure(),
                        *self == cur,
                        in_grid(cur.n(), coord),
                        cur.at(coord) is Notes,
                        cands@.to_set() == cur.at(coord)->Notes_0,
                        0 <= k <= cands.len(),
                        start.keeps_solutions(cur),
                        start.consistent() && start.solvable() ==> start.admits(sol) && cur.admits(sol)
                            && forall|i: int| 0 <= i < k ==> cands@[i] != val(sol, coord),
                    decreases cands.len() - k,
                {
                    let note = cands[k];
                    proof {
                        assert(cands@.to_set().contains(note));
                        assert(note < cur.n());
                    }
                    let mut kind = BoardKind::Regular;
                    std::mem::swap(&mut kind, &mut self.kind);
                    let grid = copy_grid(&self.grid);
                    let mut new_board = Board { size: self.size, kind, grid };
                    assert(new_board.cells() == cur.cells());
                    assert(new_board.kind == cur.kind);
                    assert(new_board.wf());
                    let ghost nb0 = new_board;
                    place(&mut new_board, coord, note);
                    let ghost nb1 = new_board;
                    proof {
                        assert(new_board.same_cells(new_board));
                        lemma_refines_refl(cur);
                        assert(nb0.at(coord) == cur.at(coord));
                        assert forall|c: Coord| in_grid(cur.n(), c) implies #[trigger] nb1.at(c) == cur.placed(coord, note, c) by {
                            assert(nb0.at(c) == cur.at(c));
                            assert(nb0.related(coord, c) == cur.related(coord, c));
                        }
                        lemma_place_candidate(start, cur, nb1, coord, note);
                        if start.consistent() && start.solvable() && val(sol, coord) == note {
                            lemma_place_admits(cur, nb1, coord, note, sol);
                        }
                    }
                    let solved = new_board.solve();
                    let ghost nbf = new_board;
                    let Board { size: _, kind: back, grid: solved_grid } = new_board;
                    self.kind = back;
                    if solved {
                        self.grid = solved_grid;
                        proof {
                            assert(self.size == nbf.size);
                            assert(*self == nbf);
                            lemma_sound_trans(start, nb1, *self);
                            if start.consistent() && start.no_conflict() {
                                lemma_refined_solution(start, *self);
                            }
                        }
                        return true;
                    }
                    assert(self.cells() == cur.cells());
                    proof {
                        if start.consistent() && start.solvable() {
                            assert(val(sol, coord) != note);
                        }
                    }
                    k += 1;
                }
                proof {
                    if start.consistent() && start.solvable() {
                        assert(crate::solution::allows(cur.at(coord), val(sol, coord)));
                        let sv = val(sol, coord);
                        assert(cands@.to_set().contains(sv));
                        let i = choose|i: int| 0 <= i < cands@.len() && cands@[i] == sv;
                    }
                }
                return false;
            }
        }
        if self.has_unsolvable_cells() {
            proof {
                if start.consistent() && start.solvable() {
                    lemma_admits_not_stuck(*self, sol);
                }
            }
            return false;
        }
        proof {
            assert forall|c: Coord| in_grid(self.n(), c) implies #[trigger] self.at(c) is Value by {
                if self.at(c) is Notes {
                    lemma_notes_finite(*self, c);
                    assert(!self.open_cell(c));
                    assert(self.at(c)->Notes_0 =~= Set::<u8>::empty());
                }
            }
            if start.consistent() && start.no_conflict() {
                lemma_refined_solution(start, *self);
            }
        }
        true
    }
}

} // verus!
